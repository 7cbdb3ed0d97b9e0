//! Frontmatter: a leading `---` … `---` YAML mapping becomes note-level
//! properties. Invalid YAML, a non-mapping, or YAML beyond plain mappings,
//! sequences and scalars is ordinary content, never an error.

use vstd::prelude::*;
use vstd::string::*;
use vstd::utf8::*;

use crate::json::{
    a_put_reads_back, get, items_view, items_view_index, put, with_member, Json, JsonView,
};
use crate::text::{find, find_first, find_is, to_chars, trim_end, trimmed_end, CharSet};

verus! {

/// A YAML node.
#[derive(Debug)]
pub enum YamlNode {
    Real(String),
    Integer(i64),
    Str(String),
    Boolean(bool),
    Array(Vec<YamlNode>),
    Hash(Vec<(YamlNode, YamlNode)>),
    Alias,
    Null,
    BadValue,
}

/// What a YAML node is, as text.
pub ghost enum YamlView {
    Real(Seq<char>),
    Integer(i64),
    Str(Seq<char>),
    Boolean(bool),
    Array(Seq<YamlView>),
    Hash(Seq<(YamlView, YamlView)>),
    Alias,
    Null,
    BadValue,
}

/// Views of the first `n` nodes.
pub open spec fn yaml_items(v: Vec<YamlNode>, n: int) -> Seq<YamlView>
    decreases v, n,
{
    if n <= 0 || n > v.len() {
        Seq::empty()
    } else {
        yaml_items(v, n - 1).push(yaml_view(v[n - 1]))
    }
}

/// Views of the first `n` pairs.
pub open spec fn yaml_pairs(v: Vec<(YamlNode, YamlNode)>, n: int) -> Seq<(YamlView, YamlView)>
    decreases v, n,
{
    if n <= 0 || n > v.len() {
        Seq::empty()
    } else {
        yaml_pairs(v, n - 1).push((yaml_view(v[n - 1].0), yaml_view(v[n - 1].1)))
    }
}

pub open spec fn yaml_view(y: YamlNode) -> YamlView
    decreases y, 0int,
{
    match y {
        YamlNode::Real(s) => YamlView::Real(s@),
        YamlNode::Integer(i) => YamlView::Integer(i),
        YamlNode::Str(s) => YamlView::Str(s@),
        YamlNode::Boolean(b) => YamlView::Boolean(b),
        YamlNode::Array(v) => YamlView::Array(yaml_items(v, v.len() as int)),
        YamlNode::Hash(v) => YamlView::Hash(yaml_pairs(v, v.len() as int)),
        YamlNode::Alias => YamlView::Alias,
        YamlNode::Null => YamlView::Null,
        YamlNode::BadValue => YamlView::BadValue,
    }
}

proof fn yaml_items_index(v: Vec<YamlNode>, n: int)
    requires
        0 <= n <= v.len(),
    ensures
        yaml_items(v, n).len() == n,
        forall|i: int| 0 <= i < n ==> #[trigger] yaml_items(v, n)[i] == yaml_view(v[i]),
    decreases n,
{
    if n > 0 {
        yaml_items_index(v, n - 1);
    }
}

proof fn yaml_pairs_index(v: Vec<(YamlNode, YamlNode)>, n: int)
    requires
        0 <= n <= v.len(),
    ensures
        yaml_pairs(v, n).len() == n,
        forall|i: int|
            0 <= i < n ==> #[trigger] yaml_pairs(v, n)[i] == (yaml_view(v[i].0), yaml_view(v[i].1)),
    decreases n,
{
    if n > 0 {
        yaml_pairs_index(v, n - 1);
    }
}

/// `yaml_rust2::Yaml`, carried from the loader to its conversion.
#[verifier::external_type_specification]
#[verifier::external_body]
pub struct ExYaml(yaml_rust2::Yaml);

/// Converts a node of `yaml_rust2::Yaml`, variant for variant, its children in
/// their order. Nothing is claimed of it by itself: see `load_yaml`.
#[verifier::external_body]
fn convert_yaml(y: yaml_rust2::Yaml) -> YamlNode {
    match y {
        yaml_rust2::Yaml::Real(s) => YamlNode::Real(s),
        yaml_rust2::Yaml::Integer(i) => YamlNode::Integer(i),
        yaml_rust2::Yaml::String(s) => YamlNode::Str(s),
        yaml_rust2::Yaml::Boolean(b) => YamlNode::Boolean(b),
        yaml_rust2::Yaml::Array(v) => YamlNode::Array(v.into_iter().map(convert_yaml).collect()),
        yaml_rust2::Yaml::Hash(m) => YamlNode::Hash(
            m.into_iter().map(|(k, v)| (convert_yaml(k), convert_yaml(v))).collect(),
        ),
        yaml_rust2::Yaml::Alias(_) => YamlNode::Alias,
        yaml_rust2::Yaml::Null => YamlNode::Null,
        yaml_rust2::Yaml::BadValue => YamlNode::BadValue,
    }
}

/// The YAML documents in a text; None where it is malformed.
pub uninterp spec fn yaml_documents(text: Seq<char>) -> Option<Seq<YamlView>>;

/// `yaml_rust2::YamlLoader::load_from_str`: the documents in the text, or None
/// where the loader reports an error. They depend on the text alone; the YAML
/// grammar is left unsaid.
#[verifier::external_body]
fn load_yaml(text: &str) -> (r: Option<Vec<YamlNode>>)
    ensures
        match r {
            Some(docs) => yaml_documents(text@) == Some(yaml_items(docs, docs.len() as int)),
            None => yaml_documents(text@) is None,
        },
{
    let docs = yaml_rust2::YamlLoader::load_from_str(text).ok()?;
    Some(docs.into_iter().map(convert_yaml).collect())
}

/// The decimal text of the finite number that a scalar spells, if it does.
pub uninterp spec fn number_text(scalar: Seq<char>) -> Option<Seq<char>>;

/// `serde_json::Number::from_f64` on the number that the scalar parses to: the
/// text of the finite number, None for any other scalar. It depends on the
/// scalar alone; how numbers are spelled is left unsaid.
#[verifier::external_body]
fn real_number(scalar: &str) -> (r: Option<String>)
    ensures
        match r {
            Some(t) => number_text(scalar@) == Some(t@),
            None => number_text(scalar@) is None,
        },
{
    serde_json::Number::from_f64(scalar.parse().ok()?).map(|n| n.to_string())
}

/// The JSON values of the first `n` items; None if one has none.
pub open spec fn items_json(v: Seq<YamlView>, n: int) -> Option<Seq<JsonView>>
    decreases v, n,
{
    if n <= 0 || n > v.len() {
        Some(Seq::empty())
    } else {
        match (items_json(v, n - 1), json_of(v[n - 1])) {
            (Some(s), Some(j)) => Some(s.push(j)),
            _ => None,
        }
    }
}

/// The object members of the first `n` pairs; None if a key is not a string or
/// a value has no JSON value.
pub open spec fn members_json(v: Seq<(YamlView, YamlView)>, n: int) -> Option<Seq<(Seq<char>, JsonView)>>
    decreases v, n,
{
    if n <= 0 || n > v.len() {
        Some(Seq::empty())
    } else {
        match (members_json(v, n - 1), v[n - 1].0, json_of(v[n - 1].1)) {
            (Some(s), YamlView::Str(k), Some(j)) => Some(with_member(s, k, j)),
            _ => None,
        }
    }
}

/// The JSON value of a YAML node: plain mappings, sequences and scalars have
/// one, anything else has none.
pub open spec fn json_of(y: YamlView) -> Option<JsonView>
    decreases y, 0int,
{
    match y {
        YamlView::Real(s) => Some(
            match number_text(s) {
                Some(t) => JsonView::Real(t),
                None => JsonView::Str(s),
            },
        ),
        YamlView::Integer(i) => Some(JsonView::Int(i as int)),
        YamlView::Str(s) => Some(JsonView::Str(s)),
        YamlView::Boolean(b) => Some(JsonView::Bool(b)),
        YamlView::Null => Some(JsonView::Null),
        YamlView::Array(v) => match items_json(v, v.len() as int) {
            Some(s) => Some(JsonView::Array(s)),
            None => None,
        },
        YamlView::Hash(v) => match members_json(v, v.len() as int) {
            Some(s) => Some(JsonView::Object(s)),
            None => None,
        },
        YamlView::Alias => None,
        YamlView::BadValue => None,
    }
}

proof fn items_json_stuck(v: Seq<YamlView>, n: int, k: int)
    requires
        0 <= n <= k <= v.len(),
        items_json(v, n) is None,
    ensures
        items_json(v, k) is None,
    decreases k - n,
{
    if n < k {
        items_json_stuck(v, n, k - 1);
    }
}

proof fn members_json_stuck(v: Seq<(YamlView, YamlView)>, n: int, k: int)
    requires
        0 <= n <= k <= v.len(),
        members_json(v, n) is None,
    ensures
        members_json(v, k) is None,
    decreases k - n,
{
    if n < k {
        members_json_stuck(v, n, k - 1);
    }
}

/// The JSON value of a YAML node.
pub fn yaml_to_json(yaml: &YamlNode) -> (r: Option<Json>)
    ensures
        match r {
            Some(j) => json_of(yaml_view(*yaml)) == Some(j@),
            None => json_of(yaml_view(*yaml)) is None,
        },
    decreases yaml,
{
    match yaml {
        YamlNode::Real(s) => Some(
            match real_number(s.as_str()) {
                Some(t) => Json::Real(t),
                None => Json::Str(s.clone()),
            },
        ),
        YamlNode::Integer(i) => Some(Json::Int(*i as i128)),
        YamlNode::Str(s) => Some(Json::Str(s.clone())),
        YamlNode::Boolean(b) => Some(Json::Bool(*b)),
        YamlNode::Null => Some(Json::Null),
        YamlNode::Array(v) => {
            let mut out: Vec<Json> = Vec::new();
            let mut i: usize = 0;
            let ghost all = yaml_items(*v, v.len() as int);
            proof {
                yaml_items_index(*v, v.len() as int);
            }
            while i < v.len()
                invariant
                    i <= v.len(),
                    *yaml == YamlNode::Array(*v),
                    all == yaml_items(*v, v.len() as int),
                    all.len() == v.len(),
                    forall|k: int| 0 <= k < v.len() ==> #[trigger] all[k] == yaml_view(v[k]),
                    out.len() == i,
                    items_json(all, i as int) == Some(items_view(out, i as int)),
                decreases v.len() - i,
            {
                let item = &v[i];
                assert(*item == v[i as int]);
                assert(decreases_to!(*yaml => yaml->Array_0));
                assert(decreases_to!(*v => v[i as int]));
                match yaml_to_json(item) {
                    Some(j) => {
                        let ghost before = out;
                        out.push(j);
                        proof {
                            items_view_index(before, i as int);
                            items_view_index(out, i + 1);
                            assert(items_view(out, i + 1) =~= items_view(before, i as int).push(j@));
                        }
                    },
                    None => {
                        proof {
                            items_json_stuck(all, i + 1, v.len() as int);
                        }
                        return None;
                    },
                }
                i += 1;
            }
            Some(Json::Array(out))
        },
        YamlNode::Hash(v) => {
            let mut out = Json::Object(Vec::new());
            let mut i: usize = 0;
            let ghost all = yaml_pairs(*v, v.len() as int);
            proof {
                yaml_pairs_index(*v, v.len() as int);
            }
            while i < v.len()
                invariant
                    i <= v.len(),
                    *yaml == YamlNode::Hash(*v),
                    all == yaml_pairs(*v, v.len() as int),
                    all.len() == v.len(),
                    forall|k: int|
                        0 <= k < v.len() ==> #[trigger] all[k] == (
                            yaml_view(v[k].0),
                            yaml_view(v[k].1),
                        ),
                    out@ is Object,
                    members_json(all, i as int) == Some(out@->Object_0),
                decreases v.len() - i,
            {
                let item = &v[i];
                assert(*item == v[i as int]);
                assert(decreases_to!(*yaml => yaml->Hash_0));
                assert(decreases_to!(*v => v[i as int]));
                match &item.0 {
                    YamlNode::Str(key) => match yaml_to_json(&item.1) {
                        Some(j) => {
                            put(&mut out, key.clone(), j);
                        },
                        None => {
                            proof {
                                members_json_stuck(all, i + 1, v.len() as int);
                            }
                            return None;
                        },
                    },
                    _ => {
                        proof {
                            members_json_stuck(all, i + 1, v.len() as int);
                        }
                        return None;
                    },
                }
                i += 1;
            }
            Some(out)
        },
        YamlNode::Alias => None,
        YamlNode::BadValue => None,
    }
}

/// What the start of a document says about the note.
#[derive(Debug)]
pub struct Frontmatter {
    /// Byte length of the frontmatter section (0 if none), with the closing
    /// delimiter line and its line ending.
    pub len: usize,
    /// Properties; `{}` when absent or invalid.
    pub properties: Json,
    /// Tags from the reserved `tags` key (a string or a list of strings).
    pub tags: Vec<String>,
    /// The reserved `pgmind-pin` key.
    pub pin: bool,
}

/// What a frontmatter section is.
pub ghost struct FrontmatterView {
    pub len: int,
    pub properties: JsonView,
    pub tags: Seq<Seq<char>>,
    pub pin: bool,
}

impl DeepView for Frontmatter {
    type V = FrontmatterView;

    open spec fn deep_view(&self) -> FrontmatterView {
        FrontmatterView {
            len: self.len as int,
            properties: self.properties@,
            tags: self.tags.deep_view(),
            pin: self.pin,
        }
    }
}

/// No frontmatter.
pub open spec fn no_frontmatter() -> FrontmatterView {
    FrontmatterView {
        len: 0,
        properties: JsonView::Object(Seq::empty()),
        tags: Seq::empty(),
        pin: false,
    }
}

/// How many characters the opening delimiter takes: exactly `---` and a line
/// ending; 0 if there is none.
pub open spec fn opening(source: Seq<char>) -> int {
    if source.len() > 3 && source[0] == '-' && source[1] == '-' && source[2] == '-' {
        if source[3] == '\n' {
            4
        } else if source.len() > 4 && source[3] == '\r' && source[4] == '\n' {
            5
        } else {
            0
        }
    } else {
        0
    }
}

/// Index after the line that starts at `from`.
pub open spec fn line_end(s: Seq<char>, from: int) -> int {
    let n = from + find(s.skip(from), '\n');
    if n < s.len() {
        n + 1
    } else {
        s.len() as int
    }
}

/// Start and end of the first line from `from` on that is exactly `---`.
pub open spec fn closing(s: Seq<char>, from: int) -> Option<(int, int)>
    decreases s.len() - from,
{
    if from < 0 || from > s.len() {
        None
    } else {
        let end = line_end(s, from);
        if trimmed_end(CharSet::LineEnd, s.subrange(from, end)) == seq!['-', '-', '-'] {
            Some((from, end))
        } else if end >= s.len() || end <= from {
            None
        } else {
            closing(s, end)
        }
    }
}

/// The character indices at which the YAML text starts and ends, and the one
/// at which the section ends.
pub open spec fn section(source: Seq<char>) -> Option<(int, int, int)> {
    let open = opening(source);
    if open == 0 {
        None
    } else {
        match closing(source, open) {
            Some((from, end)) => Some((open, from, end)),
            None => None,
        }
    }
}

/// The strings among the first `n` items.
pub open spec fn strings_in(items: Seq<JsonView>, n: int) -> Seq<Seq<char>>
    decreases n,
{
    if n <= 0 {
        Seq::empty()
    } else {
        match items[n - 1] {
            JsonView::Str(s) => strings_in(items, n - 1).push(s),
            _ => strings_in(items, n - 1),
        }
    }
}

/// The tags that properties name: a string, or the strings of a list.
pub open spec fn property_tags(properties: JsonView) -> Seq<Seq<char>> {
    match properties.get("tags"@) {
        Some(JsonView::Str(s)) => seq![s],
        Some(JsonView::Array(items)) => strings_in(items, items.len() as int),
        _ => Seq::empty(),
    }
}

/// What a section of `len` bytes with these YAML documents says: they must be
/// one, a mapping, and plain.
pub open spec fn frontmatter_of(len: int, docs: Option<Seq<YamlView>>) -> FrontmatterView {
    match docs {
        Some(d) => if d.len() == 1 && d[0] is Hash {
            match json_of(d[0]) {
                Some(p) => FrontmatterView {
                    len,
                    properties: p,
                    tags: property_tags(p),
                    pin: p.get("pgmind-pin"@) == Some(JsonView::Bool(true)),
                },
                None => no_frontmatter(),
            }
        } else {
            no_frontmatter()
        },
        None => no_frontmatter(),
    }
}

/// What the start of `source` says about the note.
pub open spec fn frontmatter(source: Seq<char>) -> FrontmatterView {
    match section(source) {
        Some((from, to, end)) => frontmatter_of(
            encode_utf8(source.take(end)).len() as int,
            yaml_documents(source.subrange(from, to)),
        ),
        None => no_frontmatter(),
    }
}

impl Frontmatter {
    /// No frontmatter.
    pub fn none() -> (r: Self)
        ensures
            r.deep_view() == no_frontmatter(),
    {
        let r = Frontmatter {
            len: 0,
            properties: Json::Object(Vec::new()),
            tags: Vec::new(),
            pin: false,
        };
        assert(r.tags.deep_view() =~= Seq::empty());
        r
    }
}

/// Finds the frontmatter section of a document: the character indices at which
/// its YAML text starts and ends, and the one at which it ends.
pub fn find_section(source: &str) -> (r: Option<(usize, usize, usize)>)
    ensures
        match r {
            Some((from, to, end)) => {
                &&& section(source@) == Some((from as int, to as int, end as int))
                &&& from <= to <= end <= source@.len()
            },
            None => section(source@) is None,
        },
{
    let cs = to_chars(source);
    if !(cs.len() > 3 && cs[0] == '-' && cs[1] == '-' && cs[2] == '-') {
        return None;
    }
    let open: usize = if cs[3] == '\n' {
        4
    } else if cs.len() > 4 && cs[3] == '\r' && cs[4] == '\n' {
        5
    } else {
        return None;
    };
    let mut from: usize = open;
    loop
        invariant
            open <= from <= cs.len(),
            cs@ == source@,
            open > 0,
            opening(source@) == open,
            closing(source@, open as int) == closing(source@, from as int),
        decreases cs.len() - from,
    {
        let mut n: usize = from;
        while n < cs.len() && cs[n] != '\n'
            invariant
                from <= n <= cs.len(),
                cs@ == source@,
                forall|k: int| from <= k < n ==> #[trigger] cs@[k] != '\n',
            decreases cs.len() - n,
        {
            n += 1;
        }
        proof {
            find_is(source@.skip(from as int), '\n', n - from);
        }
        let end: usize = if n < cs.len() {
            n + 1
        } else {
            n
        };
        assert(end == line_end(source@, from as int));
        let line = trim_end(source.substring_char(from, end), CharSet::LineEnd);
        let l = to_chars(line);
        if l.len() == 3 && l[0] == '-' && l[1] == '-' && l[2] == '-' {
            assert(line@ =~= seq!['-', '-', '-']);
            return Some((open, from, end));
        }
        if end == cs.len() {
            return None;
        }
        from = end;
    }
}

/// What a section of `len` bytes with these YAML documents says.
pub fn frontmatter_from(len: usize, docs: Option<Vec<YamlNode>>) -> (r: Frontmatter)
    ensures
        r.deep_view() == frontmatter_of(
            len as int,
            match docs {
                Some(d) => Some(yaml_items(d, d.len() as int)),
                None => None,
            },
        ),
{
    let docs = match docs {
        Some(d) => d,
        None => {
            return Frontmatter::none();
        },
    };
    proof {
        yaml_items_index(docs, docs.len() as int);
    }
    if docs.len() != 1 {
        return Frontmatter::none();
    }
    let is_hash = matches!(&docs[0], YamlNode::Hash(_));
    if !is_hash {
        return Frontmatter::none();
    }
    let properties = match yaml_to_json(&docs[0]) {
        Some(p) => p,
        None => {
            return Frontmatter::none();
        },
    };
    let mut tags: Vec<String> = Vec::new();
    match get(&properties, "tags") {
        Some(Json::Str(s)) => {
            tags.push(s.clone());
            assert(tags.deep_view() =~= seq![s@]);
        },
        Some(Json::Array(items)) => {
            let ghost v = items_view(*items, items.len() as int);
            proof {
                items_view_index(*items, items.len() as int);
                assert(tags.deep_view() =~= Seq::empty());
            }
            let mut i: usize = 0;
            while i < items.len()
                invariant
                    i <= items.len(),
                    v.len() == items.len(),
                    forall|k: int| 0 <= k < items.len() ==> #[trigger] v[k] == items[k]@,
                    tags.deep_view() == strings_in(v, i as int),
                decreases items.len() - i,
            {
                let ghost before = tags.deep_view();
                assert(v[i as int] == items[i as int]@);
                if let Json::Str(s) = &items[i] {
                    tags.push(s.clone());
                    assert(tags.deep_view() =~= before.push(s@));
                }
                i += 1;
            }
        },
        _ => {
            assert(tags.deep_view() =~= Seq::empty());
        },
    }
    let pin = matches!(get(&properties, "pgmind-pin"), Some(Json::Bool(true)));
    Frontmatter { len, properties, tags, pin }
}

/// Detects and parses frontmatter at the start of `source`.
pub fn extract(source: &str) -> (r: Frontmatter)
    ensures
        r.deep_view() == frontmatter(source@),
{
    match find_section(source) {
        Some((from, to, end)) => {
            let head = source.substring_char(0, end);
            assert(head@ =~= source@.take(end as int));
            let docs = load_yaml(source.substring_char(from, to));
            frontmatter_from(head.as_bytes().len(), docs)
        },
        None => Frontmatter::none(),
    }
}

// ---- where frontmatter ends ----

/// A line starts at `p`: at `from`, or after a line feed.
pub open spec fn line_begins(s: Seq<char>, from: int, p: int) -> bool {
    from <= p <= s.len() && (p == from || s[p - 1] == '\n')
}

/// The line that starts at `p` ends at `e`: after the first line feed, or with the text.
pub open spec fn line_is(s: Seq<char>, p: int, e: int) -> bool {
    &&& 0 <= p <= e <= s.len()
    &&& forall|k: int| p <= k < e - 1 ==> #[trigger] s[k] != '\n'
    &&& e < s.len() ==> e > p && s[e - 1] == '\n'
}

/// The line from `p` to `e` is `---` alone.
pub open spec fn is_fence(s: Seq<char>, p: int, e: int) -> bool {
    line_is(s, p, e) && trimmed_end(CharSet::LineEnd, s.subrange(p, e)) == seq!['-', '-', '-']
}

proof fn line_ends_there(s: Seq<char>, p: int, e: int)
    requires
        0 <= p <= s.len(),
    ensures
        line_is(s, p, e) <==> e == line_end(s, p),
{
    let t = s.skip(p);
    find_first(t, '\n');
    let end = line_end(s, p);
    assert(line_is(s, p, end)) by {
        assert forall|k: int| p <= k < end - 1 implies #[trigger] s[k] != '\n' by {
            assert(t[k - p] == s[k]);
        }
        if end < s.len() {
            assert(t[find(t, '\n') as int] == s[end - 1]);
        }
    }
    if line_is(s, p, e) {
        if e < end {
            assert(s[e - 1] == '\n');
        } else if end < e {
            assert(s[end - 1] == '\n');
        }
    }
}

proof fn closing_is_first(s: Seq<char>, from: int)
    requires
        0 <= from <= s.len(),
    ensures
        match closing(s, from) {
            Some((a, e)) => {
                &&& line_begins(s, from, a)
                &&& is_fence(s, a, e)
                &&& forall|p: int, x: int|
                    line_begins(s, from, p) && p < a ==> !#[trigger] is_fence(s, p, x)
            },
            None => forall|p: int, x: int|
                line_begins(s, from, p) ==> !#[trigger] is_fence(s, p, x),
        },
    decreases s.len() - from,
{
    let end = line_end(s, from);
    line_ends_there(s, from, end);
    let here = trimmed_end(CharSet::LineEnd, s.subrange(from, end)) == seq!['-', '-', '-'];
    assert forall|x: int| #[trigger] is_fence(s, from, x) implies here && x == end by {
        line_ends_there(s, from, x);
    }
    if here {
    } else if end >= s.len() || end <= from {
        assert forall|p: int, x: int| line_begins(s, from, p) implies !#[trigger] is_fence(
            s,
            p,
            x,
        ) by {
            if p > from {
                assert(s[p - 1] == '\n');
                assert(p >= end);
                assert(s.subrange(p, x).len() == 0 || !line_is(s, p, x));
                if line_is(s, p, x) {
                    assert(trimmed_end(CharSet::LineEnd, s.subrange(p, x)).len() == 0);
                }
            }
        }
    } else {
        closing_is_first(s, end);
        assert forall|p: int| line_begins(s, from, p) && p > from implies #[trigger] line_begins(
            s,
            end,
            p,
        ) by {
            assert(s[p - 1] == '\n');
        }
        assert forall|p: int, x: int|
            line_begins(s, from, p) && (closing(s, from) matches Some(c) ==> p
                < c.0) implies !#[trigger] is_fence(s, p, x) by {
            if p > from {
                assert(line_begins(s, end, p));
            }
        }
    }
}

/// Frontmatter opens with a first line that is `---`, and ends with the first later
/// line that is `---`; what stands between them is the YAML text. Where either is
/// missing there is none, and nothing of the source is taken for it.
pub proof fn frontmatter_ends_at_its_first_fence(source: Seq<char>)
    ensures
        match section(source) {
            Some((from, to, end)) => {
                &&& source.take(from) == seq!['-', '-', '-', '\n'] || source.take(from)
                    == seq!['-', '-', '-', '\r', '\n']
                &&& line_begins(source, from, to)
                &&& is_fence(source, to, end)
                &&& forall|p: int, x: int|
                    line_begins(source, from, p) && p < to ==> !#[trigger] is_fence(source, p, x)
                &&& frontmatter(source).len == 0 || frontmatter(source).len == encode_utf8(
                    source.take(end),
                ).len()
            },
            None => {
                &&& frontmatter(source) == no_frontmatter()
                &&& forall|from: int, p: int, x: int|
                    0 <= from <= source.len() && (source.take(from) == seq!['-', '-', '-', '\n']
                        || source.take(from) == seq!['-', '-', '-', '\r', '\n'])
                        && #[trigger] line_begins(source, from, p) ==> !#[trigger] is_fence(
                        source,
                        p,
                        x,
                    )
            },
        },
{
    let open = opening(source);
    if open > 0 {
        closing_is_first(source, open);
        if open == 4 {
            assert(source.take(4) =~= seq!['-', '-', '-', '\n']);
        } else {
            assert(source.take(5) =~= seq!['-', '-', '-', '\r', '\n']);
        }
    }
    if section(source) is None {
        assert forall|from: int, p: int, x: int|
            0 <= from <= source.len() && (source.take(from) == seq!['-', '-', '-', '\n']
                || source.take(from) == seq!['-', '-', '-', '\r', '\n']) && #[trigger] line_begins(
                source,
                from,
                p,
            ) implies !#[trigger] is_fence(source, p, x) by {
            let h = source.take(from);
            assert(h.len() == from);
            assert(h[0] == source[0] && h[1] == source[1] && h[2] == source[2] && h[3]
                == source[3]);
            if from == 5 {
                assert(h[4] == source[4]);
            }
            assert(open == from);
        }
    }
}

// ---- what frontmatter says ----

/// The value under a key is that of the last pair with that key; a key that no pair
/// has is not there.
pub proof fn the_last_value_counts(v: Seq<(YamlView, YamlView)>, n: int, key: Seq<char>)
    requires
        0 <= n <= v.len(),
        members_json(v, n) is Some,
    ensures
        forall|i: int|
            0 <= i < n && (#[trigger] v[i]).0 == YamlView::Str(key) && (forall|j: int|
                i < j < n ==> (#[trigger] v[j]).0 != YamlView::Str(key)) ==> JsonView::Object(
                members_json(v, n)->0,
            ).get(key) == json_of(v[i].1) && json_of(v[i].1) is Some,
        (forall|i: int| 0 <= i < n ==> (#[trigger] v[i]).0 != YamlView::Str(key))
            ==> JsonView::Object(members_json(v, n)->0).get(key) is None,
    decreases n,
{
    if n > 0 {
        the_last_value_counts(v, n - 1, key);
        let m = members_json(v, n - 1)->0;
        let k = v[n - 1].0->Str_0;
        let j = json_of(v[n - 1].1)->0;
        a_put_reads_back(JsonView::Object(m), k, j, key);
        assert(JsonView::Object(m).put(k, j) == JsonView::Object(members_json(v, n)->0));
        assert forall|i: int|
            0 <= i < n && (#[trigger] v[i]).0 == YamlView::Str(key) && (forall|j: int|
                i < j < n ==> (#[trigger] v[j]).0 != YamlView::Str(key)) implies JsonView::Object(
            members_json(v, n)->0,
        ).get(key) == json_of(v[i].1) && json_of(v[i].1) is Some by {
            if i < n - 1 {
                assert(v[n - 1].0 != YamlView::Str(key));
                assert(forall|j: int| i < j < n - 1 ==> (#[trigger] v[j]).0 != YamlView::Str(key));
            }
        }
    }
}

/// These are the numbers below `n` of the items that are texts, in order.
pub open spec fn texts_among(items: Seq<JsonView>, n: int, at: Seq<int>) -> bool {
    &&& forall|a: int, b: int| 0 <= a < b < at.len() ==> #[trigger] at[a] < #[trigger] at[b]
    &&& forall|i: int| #[trigger] at.contains(i) <==> 0 <= i < n && items[i] is Str
}

proof fn strings_are(items: Seq<JsonView>, n: int) -> (at: Seq<int>)
    requires
        0 <= n <= items.len(),
    ensures
        texts_among(items, n, at),
        strings_in(items, n).len() == at.len(),
        forall|k: int|
            0 <= k < at.len() ==> items[#[trigger] at[k]] == JsonView::Str(strings_in(items, n)[k]),
    decreases n,
{
    if n > 0 {
        let old = strings_are(items, n - 1);
        let at = if items[n - 1] is Str {
            old.push(n - 1)
        } else {
            old
        };
        assert forall|a: int| 0 <= a < old.len() implies #[trigger] old[a] < n - 1 by {
            assert(old.contains(old[a]));
        }
        assert forall|i: int| #[trigger] at.contains(i) <==> 0 <= i < n && items[i] is Str by {
            if at.contains(i) {
                let k = at.index_of(i);
                if k < old.len() {
                    assert(old[k] == i);
                    assert(old.contains(i));
                }
            }
            if 0 <= i < n && items[i] is Str {
                if i < n - 1 {
                    assert(old.contains(i));
                    let k = old.index_of(i);
                    assert(at[k] == i);
                } else {
                    assert(at[old.len() as int] == i);
                }
            }
        }
        at
    } else {
        Seq::empty()
    }
}

/// The tags of a note's properties are the text under `tags`, or every text of the list
/// there, in order; anything else there names none.
pub proof fn property_tags_are_the_texts(properties: JsonView)
    ensures
        match properties.get("tags"@) {
            Some(JsonView::Str(t)) => property_tags(properties) == seq![t],
            Some(JsonView::Array(items)) => exists|at: Seq<int>| #[trigger]
                texts_among(items, items.len() as int, at) && property_tags(properties).len()
                    == at.len() && forall|k: int|
                    0 <= k < at.len() ==> items[#[trigger] at[k]] == JsonView::Str(
                        property_tags(properties)[k],
                    ),
            _ => property_tags(properties).len() == 0,
        },
{
    if let Some(JsonView::Array(items)) = properties.get("tags"@) {
        let at = strings_are(items, items.len() as int);
        assert(texts_among(items, items.len() as int, at));
    }
}

} // verus!
