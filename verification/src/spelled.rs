//! How references are written, and what the scan of a text finds.

use vstd::prelude::*;
use vstd::utf8::*;

use crate::document::{LinkKind, LinkView, TagView, UnitView};
use crate::text::{
    find, find_first, find_is, is_digit, nfc, sub_text, trimmed, trimmed_end, whitespace, CharSet,
};
use crate::vault::{
    char_before, closed, displayed, escaped, first_range, has_scheme, id_char, id_tail, link_kind,
    mdlink, nonempty, opens_link, ref_marker, scanned, scanned_blocks, scanned_unit, scanned_units,
    tag_at, tag_char, tag_may_start, tag_run, wiki, wiki_bounds, wiki_from, without_marker, Found,
    Interior, Part, Place, WikiView,
};

verus! {

// ---- links ----

/// A text as it is written between `[[` and `]]`: what has a meaning there gets a
/// backslash.
pub open spec fn spelled(s: Seq<char>) -> Seq<char>
    decreases s.len(),
{
    if s.len() == 0 {
        s
    } else {
        (if s[0] == '#' || s[0] == '|' || s[0] == ']' {
            seq!['\\', s[0]]
        } else {
            seq![s[0]]
        }) + spelled(s.drop_first())
    }
}

/// A text of one line without backslashes.
pub open spec fn one_line(s: Seq<char>) -> bool {
    !s.contains('\n') && !s.contains('\\')
}

spec fn grown_by(o: Option<Seq<char>>, x: Seq<char>) -> Option<Seq<char>> {
    if x.len() == 0 {
        o
    } else {
        match o {
            Some(s) => Some(s + x),
            None => Some(x),
        }
    }
}

spec fn interior_with(st: Interior, part: Part, x: Seq<char>) -> Interior {
    match part {
        Part::Target => Interior { target: st.target + x, ..st },
        Part::Anchor => Interior { anchor: grown_by(st.anchor, x), ..st },
        Part::Alias => Interior { alias: grown_by(st.alias, x), ..st },
    }
}

proof fn part_is_read(pre: Seq<char>, x: Seq<char>, post: Seq<char>, st: Interior, part: Part)
    requires
        one_line(x),
    ensures
        ({
            let rest = pre + spelled(x) + post;
            wiki_from(rest, pre.len() as int, st, part) == wiki_from(
                rest,
                (pre.len() + spelled(x).len()) as int,
                interior_with(st, part, x),
                part,
            )
        }),
    decreases x.len(),
{
    let rest = pre + spelled(x) + post;
    if x.len() == 0 {
        assert(st.target + x =~= st.target);
        assert(interior_with(st, part, x) == st);
    } else {
        let c = x[0];
        let t = x.drop_first();
        assert(x.contains(c));
        assert forall|k: int| 0 <= k < t.len() implies t[k] != '\n' && t[k] != '\\' by {
            assert(t[k] == x[k + 1]);
            assert(x.contains(x[k + 1]));
        }
        let lead = if c == '#' || c == '|' || c == ']' {
            seq!['\\', c]
        } else {
            seq![c]
        };
        let at = pre.len() as int;
        assert(rest =~= (pre + lead) + spelled(t) + post);
        let next = st.put(part, c);
        part_is_read(pre + lead, t, post, next, part);
        assert(rest[at] == lead[0]);
        if lead.len() == 2 {
            assert(rest[at + 1] == c);
        }
        let all = interior_with(st, part, x);
        let two = interior_with(next, part, t);
        assert(x =~= seq![c] + t);
        match part {
            Part::Target => {
                assert(all.target =~= two.target);
            },
            Part::Anchor => {
                assert(all.anchor->0 =~= two.anchor->0);
            },
            Part::Alias => {
                assert(all.alias->0 =~= two.alias->0);
            },
        }
        assert(all == two);
    }
}

/// A part of a link, after the character that starts it.
pub open spec fn marked_part(mark: char, part: Option<Seq<char>>) -> Seq<char> {
    match part {
        Some(s) => seq![mark] + spelled(s),
        None => Seq::empty(),
    }
}

/// What stands after the `[[` of a link to a target, maybe with an anchor and an alias.
pub open spec fn written(
    target: Seq<char>,
    anchor: Option<Seq<char>>,
    alias: Option<Seq<char>>,
) -> Seq<char> {
    spelled(target) + marked_part('#', anchor) + marked_part('|', alias) + seq![']', ']']
}

/// What a part of a link says, if anything.
pub open spec fn said(part: Option<Seq<char>>) -> Option<Seq<char>> {
    match part {
        Some(s) => nonempty(trimmed(s)),
        None => None,
    }
}

/// A link reads as it is written, whatever follows it: the target, the anchor after
/// `#` and the alias after `|`, without the white space around them; it ends with its
/// `]]`. Where nothing is written for target and anchor there is no link.
pub proof fn a_link_reads_as_written(
    target: Seq<char>,
    anchor: Option<Seq<char>>,
    alias: Option<Seq<char>>,
    after: Seq<char>,
)
    requires
        one_line(target),
        anchor matches Some(s) ==> one_line(s),
        alias matches Some(s) ==> one_line(s),
    ensures
        ({
            let text = written(target, anchor, alias);
            let at = match anchor {
                Some(s) => if s.len() == 0 {
                    None
                } else {
                    nonempty(nfc(trimmed(s)))
                },
                None => None,
            };
            wiki(text + after) == (if trimmed(target).len() == 0 && at is None {
                WikiView::Invalid(text.len() as int)
            } else {
                WikiView::Found(nfc(trimmed(target)), at, said(alias), text.len() as int)
            })
        }),
{
    let text = written(target, anchor, alias);
    let rest = text + after;
    let none = Interior { target: Seq::empty(), anchor: None, alias: None };
    let end = marked_part('|', alias) + seq![']', ']'];
    let none_yet = Seq::<char>::empty();
    let far = marked_part('#', anchor) + end + after;
    assert(rest =~= none_yet + spelled(target) + far);
    part_is_read(none_yet, target, far, none, Part::Target);
    let st = interior_with(none, Part::Target, target);
    assert(st.target =~= target);
    assert(rest =~= spelled(target) + far);
    anchor_is_read(spelled(target), anchor, alias, after, st);
    assert(text =~= spelled(target) + marked_part('#', anchor) + end);
    nothing_trims_to_nothing();
}

proof fn alias_is_read(
    pre: Seq<char>,
    alias: Option<Seq<char>>,
    after: Seq<char>,
    st: Interior,
    part: Part,
)
    requires
        alias matches Some(s) ==> one_line(s),
        part != Part::Alias,
    ensures
        ({
            let end = marked_part('|', alias) + seq![']', ']'];
            wiki_from(pre + (end + after), pre.len() as int, st, part) == closed(
                match alias {
                    Some(s) => interior_with(st, Part::Alias, s),
                    None => st,
                },
                (pre.len() + end.len()) as int,
            )
        }),
{
    let e = seq![']', ']'];
    let end = marked_part('|', alias) + e;
    let rest = pre + (end + after);
    let at = pre.len() as int;
    match alias {
        Some(s) => {
            let p = pre + seq!['|'];
            assert(rest =~= p + spelled(s) + (e + after));
            part_is_read(p, s, e + after, st, Part::Alias);
            assert(rest[at] == '|');
            let k = (p.len() + spelled(s).len()) as int;
            assert(rest[k] == ']' && rest[k + 1] == ']');
        },
        None => {
            assert(end =~= e);
            assert(rest[at] == ']' && rest[at + 1] == ']');
        },
    }
}

proof fn anchor_is_read(
    pre: Seq<char>,
    anchor: Option<Seq<char>>,
    alias: Option<Seq<char>>,
    after: Seq<char>,
    st: Interior,
)
    requires
        anchor matches Some(s) ==> one_line(s),
        alias matches Some(s) ==> one_line(s),
    ensures
        ({
            let end = marked_part('|', alias) + seq![']', ']'];
            let st2 = match anchor {
                Some(s) => interior_with(st, Part::Anchor, s),
                None => st,
            };
            wiki_from(
                pre + (marked_part('#', anchor) + end + after),
                pre.len() as int,
                st,
                Part::Target,
            ) == closed(
                match alias {
                    Some(s) => interior_with(st2, Part::Alias, s),
                    None => st2,
                },
                (pre.len() + marked_part('#', anchor).len() + end.len()) as int,
            )
        }),
{
    let end = marked_part('|', alias) + seq![']', ']'];
    let a = marked_part('#', anchor);
    let rest = pre + (a + end + after);
    match anchor {
        Some(s) => {
            let p = pre + seq!['#'];
            assert(rest =~= p + spelled(s) + (end + after));
            part_is_read(p, s, end + after, st, Part::Anchor);
            assert(rest[pre.len() as int] == '#');
            assert(rest =~= (pre + a) + (end + after));
            alias_is_read(
                pre + a,
                alias,
                after,
                interior_with(st, Part::Anchor, s),
                Part::Anchor,
            );
        },
        None => {
            assert(rest =~= pre + (end + after));
            alias_is_read(pre, alias, after, st, Part::Target);
        },
    }
}

proof fn nothing_trims_to_nothing()
    ensures
        trimmed(Seq::<char>::empty()) == Seq::<char>::empty(),
{
    assert(trimmed(Seq::<char>::empty()) =~= Seq::<char>::empty());
}

/// A line without `]` closes no link.
pub proof fn an_open_link_is_none(line: Seq<char>, after: Seq<char>, st: Interior, part: Part, i: int)
    requires
        !line.contains(']'),
        !line.contains('\n'),
        after.len() == 0 || after[0] == '\n',
        0 <= i <= line.len(),
    ensures
        wiki_from(line + after, i, st, part) == WikiView::NoTerminator,
    decreases line.len() - i,
{
    let rest = line + after;
    if i < line.len() {
        assert(line.contains(line[i]));
        assert(rest[i] == line[i]);
        if i + 1 < line.len() {
            assert(line.contains(line[i + 1]));
            assert(rest[i + 1] == line[i + 1]);
            an_open_link_is_none(line, after, st.put(part, line[i + 1]), part, i + 2);
        }
        an_open_link_is_none(line, after, st, Part::Anchor, i + 1);
        an_open_link_is_none(line, after, st, Part::Alias, i + 1);
        an_open_link_is_none(line, after, st.put(part, line[i]), part, i + 1);
    }
}

// ---- scans ----

/// A scan that looks at position `i` goes on at `e`: after the link that opens there;
/// after the line, if it opens and is not closed on it; after the tag that starts
/// there; else at the next character.
pub open spec fn goes_on_at(text: Seq<char>, place: Place, i: int, e: int) -> bool {
    if opens_link(text, i) {
        match wiki(text.skip(i + 2)) {
            WikiView::Found(_, _, _, n) => e == i + 2 + n,
            WikiView::Invalid(n) => e == i + 2 + n,
            WikiView::NoTerminator => {
                &&& i < e <= text.len() + 1
                &&& forall|k: int| i <= k < e - 1 ==> #[trigger] text[k] != '\n'
                &&& e <= text.len() ==> text[e - 1] == '\n'
            },
        }
    } else {
        match tag_at(text, place, i) {
            Some(tag) => e == i + 1 + tag.len(),
            None => e == i + 1,
        }
    }
}

/// A scan looks at these positions, from `from` on.
pub open spec fn looked_at(text: Seq<char>, place: Place, from: int, at: Seq<int>) -> bool {
    &&& at.len() > 0 && at[0] == from && at.last() >= text.len()
    &&& forall|k: int| 0 <= k < at.len() - 1 ==> 0 <= #[trigger] at[k] < text.len()
    &&& forall|k: int|
        0 <= k < at.len() - 1 ==> goes_on_at(text, place, #[trigger] at[k], at[k + 1])
}

/// The link that opens at position `i`, if one does.
pub open spec fn link_there(text: Seq<char>, block: u32, i: int) -> Option<LinkView> {
    if opens_link(text, i) {
        match wiki(text.skip(i + 2)) {
            WikiView::Found(target, anchor, alias, _) => Some(
                LinkView { kind: link_kind(text, i, anchor), target, anchor, alias, block },
            ),
            _ => None,
        }
    } else {
        None
    }
}

/// The tag that starts at position `i`, if one does.
pub open spec fn tag_there(text: Seq<char>, place: Place, block: u32, i: int) -> Option<TagView> {
    match tag_at(text, place, i) {
        Some(tag) => if opens_link(text, i) {
            None
        } else {
            Some(TagView { tag, block: Some(block) })
        },
        None => None,
    }
}

/// These are the values that positions have, in order, and no other.
pub open spec fn values_of<T>(all: Seq<Option<T>>, found: Seq<T>) -> bool
    decreases all.len(),
{
    if all.len() == 0 {
        found.len() == 0
    } else {
        match all[0] {
            Some(x) => found.len() > 0 && found[0] == x && values_of(
                all.drop_first(),
                found.drop_first(),
            ),
            None => values_of(all.drop_first(), found),
        }
    }
}

spec fn links_at(text: Seq<char>, block: u32, at: Seq<int>) -> Seq<Option<LinkView>> {
    Seq::new((at.len() - 1) as nat, |k: int| link_there(text, block, at[k]))
}

spec fn tags_at(text: Seq<char>, place: Place, block: u32, at: Seq<int>) -> Seq<Option<TagView>> {
    Seq::new((at.len() - 1) as nat, |k: int| tag_there(text, place, block, at[k]))
}

proof fn scan_looks(text: Seq<char>, place: Place, block: u32, i: int, acc: Found) -> (at: Seq<int>)
    requires
        0 <= i,
    ensures
        looked_at(text, place, i, at),
        ({
            let out = scanned(text, place, block, i, acc);
            &&& acc.links.len() <= out.links.len()
            &&& out.links.take(acc.links.len() as int) == acc.links
            &&& values_of(links_at(text, block, at), out.links.skip(acc.links.len() as int))
            &&& acc.tags.len() <= out.tags.len()
            &&& out.tags.take(acc.tags.len() as int) == acc.tags
            &&& values_of(tags_at(text, place, block, at), out.tags.skip(acc.tags.len() as int))
        }),
    decreases
            (if 0 <= i < text.len() {
                text.len() - i
            } else {
                0
            }),
{
    let out = scanned(text, place, block, i, acc);
    if i >= text.len() {
        assert(out.links.take(acc.links.len() as int) =~= acc.links);
        assert(out.tags.take(acc.tags.len() as int) =~= acc.tags);
        seq![i]
    } else {
        let none = Interior { target: Seq::empty(), anchor: None, alias: None };
        wiki_bounds(text.skip(i + 2), 0, none, Part::Target);
        find_first(text.skip(i), '\n');
        let (e, mid) = if opens_link(text, i) {
            match wiki(text.skip(i + 2)) {
                WikiView::Found(_, _, _, n) => (
                    i + 2 + n,
                    Found { links: acc.links.push(link_there(text, block, i)->0), ..acc },
                ),
                WikiView::Invalid(n) => (i + 2 + n, acc),
                WikiView::NoTerminator => (i + find(text.skip(i), '\n') + 1, acc),
            }
        } else {
            match tag_at(text, place, i) {
                Some(tag) => (
                    i + 1 + tag.len(),
                    Found { tags: acc.tags.push(TagView { tag, block: Some(block) }), ..acc },
                ),
                None => (i + 1, acc),
            }
        };
        let rest = scan_looks(text, place, block, e, mid);
        assert(out == scanned(text, place, block, e, mid));
        let at = seq![i] + rest;
        assert(goes_on_at(text, place, i, e)) by {
            if opens_link(text, i) && wiki(text.skip(i + 2)) is NoTerminator {
                let line = text.skip(i);
                let f = find(line, '\n') as int;
                assert forall|k: int| i <= k < e - 1 implies #[trigger] text[k] != '\n' by {
                    assert(line[k - i] == text[k]);
                }
                if f < line.len() {
                    assert(line[f] == text[e - 1]);
                }
            }
        }
        assert forall|k: int| 0 <= k < at.len() - 1 implies goes_on_at(
            text,
            place,
            #[trigger] at[k],
            at[k + 1],
        ) && 0 <= at[k] < text.len() by {
            if k > 0 {
                assert(at[k] == rest[k - 1] && at[k + 1] == rest[k]);
            }
        }
        assert(links_at(text, block, at).drop_first() =~= links_at(text, block, rest));
        assert(tags_at(text, place, block, at).drop_first() =~= tags_at(text, place, block, rest));
        let a = acc.links.len() as int;
        let m = mid.links.len() as int;
        assert(out.links.take(a) =~= mid.links.take(a)) by {
            assert forall|k: int| 0 <= k < a implies out.links.take(a)[k] == mid.links.take(
                a,
            )[k] by {
                assert(out.links.take(m)[k] == mid.links[k]);
            }
        }
        assert(mid.links.take(a) =~= acc.links);
        if m > a {
            assert(out.links.take(m)[a] == mid.links[a]);
            assert(out.links.skip(a).drop_first() =~= out.links.skip(m));
        }
        let b = acc.tags.len() as int;
        let t = mid.tags.len() as int;
        assert(out.tags.take(b) =~= mid.tags.take(b)) by {
            assert forall|k: int| 0 <= k < b implies out.tags.take(b)[k] == mid.tags.take(b)[k] by {
                assert(out.tags.take(t)[k] == mid.tags[k]);
            }
        }
        assert(mid.tags.take(b) =~= acc.tags);
        if t > b {
            assert(out.tags.take(t)[b] == mid.tags[b]);
            assert(out.tags.skip(b).drop_first() =~= out.tags.skip(t));
        }
        at
    }
}

/// A scan of a text finds every link and every tag in it that is not inside an earlier
/// one, in order, and nothing else. It passes over what is between the brackets of a
/// link, and over the rest of a line on which a link is opened and not closed. It adds
/// to what was found before.
pub proof fn every_reference_is_found(text: Seq<char>, place: Place, block: u32, acc: Found)
    ensures
        ({
            let out = scanned(text, place, block, 0, acc);
            let l = acc.links.len() as int;
            let t = acc.tags.len() as int;
            &&& l <= out.links.len() && out.links.take(l) == acc.links
            &&& t <= out.tags.len() && out.tags.take(t) == acc.tags
            &&& exists|at: Seq<int>| #[trigger]
                looked_at(text, place, 0, at) && values_of(
                    Seq::new((at.len() - 1) as nat, |k: int| link_there(text, block, at[k])),
                    out.links.skip(l),
                ) && values_of(
                    Seq::new((at.len() - 1) as nat, |k: int| tag_there(text, place, block, at[k])),
                    out.tags.skip(t),
                )
        }),
{
    let at = scan_looks(text, place, block, 0, acc);
    let out = scanned(text, place, block, 0, acc);
    assert(Seq::new((at.len() - 1) as nat, |k: int| link_there(text, block, at[k])) =~= links_at(
        text,
        block,
        at,
    ));
    assert(Seq::new((at.len() - 1) as nat, |k: int| tag_there(text, place, block, at[k]))
        =~= tags_at(text, place, block, at));
    assert(looked_at(text, place, 0, at));
}

/// Digits alone stand from `from` up to `e`, where no tag goes on.
pub open spec fn digits_upto(text: Seq<char>, from: int, e: int) -> bool {
    &&& from <= e <= text.len()
    &&& e < text.len() ==> !tag_char(text[e])
    &&& forall|k: int| from <= k < e ==> is_digit(#[trigger] text[k])
}

/// A tag starts with a `#` that is not escaped and follows white space or opens the
/// text of its block, and runs as far as its characters do; what has none of them, or
/// only digits, is no tag.
pub proof fn a_tag_is_a_word(text: Seq<char>, place: Place, i: int)
    requires
        0 <= i < text.len(),
    ensures
        match tag_at(text, place, i) {
            Some(tag) => {
                let e = i + 1 + tag.len();
                &&& text[i] == '#'
                &&& !escaped(text, i)
                &&& tag.len() > 0
                &&& e <= text.len()
                &&& tag == text.subrange(i + 1, e)
                &&& forall|k: int| 0 <= k < tag.len() ==> tag_char(#[trigger] tag[k])
                &&& exists|k: int| 0 <= k < tag.len() && !is_digit(#[trigger] tag[k])
                &&& e < text.len() ==> !tag_char(text[e])
                &&& i > 0 && place.offset is None ==> whitespace(text[i - 1])
                &&& i > 0 && place.offset is Some && place.block_start is None ==> whitespace(
                    text[i - 1],
                )
            },
            None => {
                ||| text[i] != '#'
                ||| escaped(text, i)
                ||| i > 0 && !whitespace(text[i - 1])
                ||| i == 0 && place.offset is Some && place.block_start != place.offset && !(
                place.before is Some && whitespace(place.before->0))
                ||| i + 1 >= text.len() || !tag_char(text[i + 1])
                ||| exists|e: int| #[trigger] digits_upto(text, i + 1, e)
            },
        },
{
    let n = tag_run(text, i + 1) as int;
    tag_runs(text, i + 1);
    let tag = text.subrange(i + 1, i + 1 + n);
    let e = i + 1 + n;
    assert forall|k: int| 0 <= k < n implies #[trigger] tag[k] == text[i + 1 + k] by {}
    assert(text.take(0) =~= Seq::<char>::empty());
    assert(encode_utf8(text.take(0)).len() == 0);
    if tag_at(text, place, i) is None && text[i] == '#' && !escaped(text, i) && n > 0
        && tag_may_start(text, place, i) {
        assert forall|k: int| i + 1 <= k < e implies is_digit(#[trigger] text[k]) by {
            assert(tag[k - i - 1] == text[k]);
        }
        assert(digits_upto(text, i + 1, e));
    }
}

proof fn tag_runs(text: Seq<char>, from: int)
    requires
        0 <= from <= text.len(),
    ensures
        from + tag_run(text, from) <= text.len(),
        forall|k: int| from <= k < from + tag_run(text, from) ==> tag_char(#[trigger] text[k]),
        from + tag_run(text, from) < text.len() ==> !tag_char(text[from + tag_run(text, from)]),
    decreases text.len() - from,
{
    if from < text.len() && tag_char(text[from]) {
        tag_runs(text, from + 1);
    }
}

// ---- markers ----

/// A text that a block ID can be.
pub open spec fn is_id(id: Seq<char>) -> bool {
    id.len() > 0 && forall|k: int| 0 <= k < id.len() ==> id_char(#[trigger] id[k])
}

proof fn id_tail_is(s: Seq<char>, n: int)
    requires
        0 <= n <= s.len(),
        forall|k: int| s.len() - n <= k < s.len() ==> id_char(#[trigger] s[k]),
        n < s.len() ==> !id_char(s[s.len() - n - 1]),
    ensures
        id_tail(s) == n,
    decreases n,
{
    if n > 0 {
        let t = s.drop_last();
        assert forall|k: int| t.len() - (n - 1) <= k < t.len() implies id_char(#[trigger] t[k]) by {
            assert(t[k] == s[k]);
        }
        id_tail_is(t, n - 1);
    }
}

proof fn id_tail_runs(s: Seq<char>)
    ensures
        id_tail(s) <= s.len(),
        forall|k: int| s.len() - id_tail(s) <= k < s.len() ==> id_char(#[trigger] s[k]),
        id_tail(s) < s.len() ==> !id_char(s[s.len() - id_tail(s) - 1]),
    decreases s.len(),
{
    if s.len() > 0 && id_char(s.last()) {
        let t = s.drop_last();
        id_tail_runs(t);
        assert forall|k: int| s.len() - id_tail(s) <= k < s.len() implies id_char(
            #[trigger] s[k],
        ) by {
            if k < t.len() {
                assert(t[k] == s[k]);
            }
        }
    }
}

/// A marker reads as it is written, and comes off with the space before it: a text
/// has the ID `id` exactly if it ends with a space, `^` and that ID.
pub proof fn a_marker_reads_as_written(text: Seq<char>, id: Seq<char>)
    ensures
        is_id(id) ==> ref_marker(text + seq![' ', '^'] + id) == Some(id),
        is_id(id) ==> without_marker(text + seq![' ', '^'] + id) == text,
        ref_marker(text) matches Some(x) ==> is_id(x) && text == text.take(text.len() - x.len() - 2)
            + seq![' ', '^'] + x,
        ref_marker(trimmed_end(CharSet::Whitespace, text)) is None ==> without_marker(text) == text,
{
    if is_id(id) {
        let s = text + seq![' ', '^'] + id;
        let n = id.len() as int;
        assert forall|k: int| s.len() - n <= k < s.len() implies id_char(#[trigger] s[k]) by {
            assert(s[k] == id[k - (s.len() - n)]);
        }
        assert(s[s.len() - n - 1] == '^');
        id_tail_is(s, n);
        assert(s.skip(s.len() - n) =~= id);
        assert(s.last() == id[n - 1]);
        assert(!whitespace(s.last()));
        assert(trimmed_end(CharSet::Whitespace, s) =~= s);
        assert(s.take(s.len() - n - 2) =~= text);
    }
    if let Some(x) = ref_marker(text) {
        id_tail_runs(text);
        let n = id_tail(text) as int;
        assert forall|k: int| 0 <= k < x.len() implies id_char(#[trigger] x[k]) by {
            assert(x[k] == text[text.len() - n + k]);
        }
        assert(text =~= text.take(text.len() - n - 2) + seq![' ', '^'] + x);
    }
}

// ---- markdown links ----

/// A markdown link to a path in the vault makes a reference to that path, without
/// `.md` at its end; a fragment after `#` becomes the anchor. A link with a scheme,
/// or to nothing, makes none.
pub proof fn a_markdown_link_reads_as_written(
    path: Seq<char>,
    md: bool,
    fragment: Seq<char>,
    block: u32,
)
    requires
        !path.contains('#'),
        !md ==> !seq!['.', 'm', 'd'].is_suffix_of(path),
    ensures
        ({
            let full = if md {
                path + seq!['.', 'm', 'd']
            } else {
                path
            };
            let url = if fragment.len() > 0 {
                full + seq!['#'] + fragment
            } else {
                full
            };
            let target = nfc(trimmed(path));
            mdlink(url, block) == (if has_scheme(url) || target.len() == 0 {
                None
            } else {
                Some(
                    LinkView {
                        kind: LinkKind::Mdlink,
                        target,
                        anchor: (if fragment.len() > 0 {
                            Some(nfc(trimmed(fragment)))
                        } else {
                            None
                        }),
                        alias: None,
                        block,
                    },
                )
            })
        }),
{
    let full = if md {
        path + seq!['.', 'm', 'd']
    } else {
        path
    };
    let n = full.len() as int;
    assert forall|i: int| 0 <= i < n implies #[trigger] full[i] != '#' by {
        if i < path.len() {
            assert(path.contains(path[i]));
        }
    }
    if md {
        assert(full.take(n - 3) =~= path);
    } else if n >= 3 && full[n - 3] == '.' && full[n - 2] == 'm' && full[n - 1] == 'd' {
        assert(seq!['.', 'm', 'd'] =~= path.subrange(n - 3, n));
    }
    if fragment.len() > 0 {
        let url = full + seq!['#'] + fragment;
        assert forall|i: int| 0 <= i < n implies #[trigger] url[i] != '#' by {
            assert(url[i] == full[i]);
        }
        find_is(url, '#', n);
        assert(url.take(n) =~= full);
        assert(url.skip(n + 1) =~= fragment);
    } else {
        find_is(full, '#', n);
    }
}

// ---- what is shown ----

proof fn shown_upto(text: Seq<char>, i: int, k: int)
    requires
        0 <= i <= k <= text.len(),
        forall|j: int| i <= j < k ==> !opens_link(text, j),
    ensures
        displayed(text, i) == text.subrange(i, k) + displayed(text, k),
    decreases k - i,
{
    if i < k {
        shown_upto(text, i + 1, k);
        assert(text.subrange(i, k) =~= seq![text[i]] + text.subrange(i + 1, k));
        assert(displayed(text, i) =~= text.subrange(i, k) + displayed(text, k));
    } else {
        assert(text.subrange(i, k) + displayed(text, k) =~= displayed(text, k));
    }
}

/// A text that opens no link is shown as it is.
pub proof fn plain_text_is_shown_as_it_is(text: Seq<char>)
    requires
        forall|j: int| 0 <= j < text.len() ==> !opens_link(text, j),
    ensures
        displayed(text, 0) == text,
{
    shown_upto(text, 0, text.len() as int);
    assert(text.subrange(0, text.len() as int) + Seq::<char>::empty() =~= text);
}

/// A link in a text is shown by its alias, else by its target; what stands before it is
/// shown as it is, and what follows is shown next.
pub proof fn a_link_is_shown_by_its_alias(
    pre: Seq<char>,
    target: Seq<char>,
    anchor: Option<Seq<char>>,
    alias: Option<Seq<char>>,
    after: Seq<char>,
)
    requires
        !pre.contains('['),
        pre.len() > 0 ==> pre.last() != '\\',
        one_line(target),
        trimmed(target).len() > 0,
        anchor matches Some(s) ==> one_line(s),
        alias matches Some(s) ==> one_line(s),
    ensures
        ({
            let link = seq!['[', '['] + written(target, anchor, alias);
            let text = pre + link + after;
            displayed(text, 0) == pre + (match said(alias) {
                Some(a) => a,
                None => nfc(trimmed(target)),
            }) + displayed(text, (pre.len() + link.len()) as int)
        }),
{
    let body = written(target, anchor, alias);
    let link = seq!['[', '['] + body;
    let text = pre + link + after;
    let n = pre.len() as int;
    a_link_reads_as_written(target, anchor, alias, after);
    assert(text.skip(n + 2) =~= body + after);
    assert forall|j: int| 0 <= j < n implies !opens_link(text, j) by {
        assert(pre.contains(pre[j]));
        assert(text[j] == pre[j]);
    }
    if n > 0 {
        assert(text[n - 1] == pre.last());
    }
    assert(text[n] == '[' && text[n + 1] == '[');
    assert(!escaped(text, n));
    assert(opens_link(text, n));
    shown_upto(text, 0, n);
    assert(text.subrange(0, n) =~= pre);
    let shown = match said(alias) {
        Some(a) => a,
        None => nfc(trimmed(target)),
    };
    assert(displayed(text, n) == shown + displayed(text, n + 2 + body.len()));
    assert(pre + (shown + displayed(text, n + link.len())) =~= pre + shown + displayed(
        text,
        n + link.len(),
    ));
}

/// A character right after a backslash is escaped, unless that backslash is itself; no
/// other is.
pub proof fn a_backslash_escapes_one(text: Seq<char>, pos: int)
    requires
        0 <= pos <= text.len(),
    ensures
        pos == 0 ==> !escaped(text, pos),
        pos > 0 && text[pos - 1] != '\\' ==> !escaped(text, pos),
        pos > 0 && text[pos - 1] == '\\' ==> escaped(text, pos) == !escaped(text, pos - 1),
{
}

// ---- whole documents ----

spec fn nothing() -> Found {
    Found { links: Seq::empty(), tags: Seq::empty() }
}

spec fn both(a: Found, b: Found) -> Found {
    Found { links: a.links + b.links, tags: a.tags + b.tags }
}

proof fn both_three(a: Found, b: Found, c: Found)
    ensures
        both(both(a, b), c) == both(a, both(b, c)),
{
    assert(both(both(a, b), c).links =~= both(a, both(b, c)).links);
    assert(both(both(a, b), c).tags =~= both(a, both(b, c)).tags);
}

/// What a scan finds does not rest on what was found before.
proof fn a_scan_adds(text: Seq<char>, place: Place, block: u32, i: int, acc: Found)
    requires
        0 <= i,
    ensures
        scanned(text, place, block, i, acc) == both(acc, scanned(text, place, block, i, nothing())),
    decreases
            (if 0 <= i < text.len() {
                text.len() - i
            } else {
                0
            }),
{
    if i >= text.len() {
        assert(both(acc, nothing()).links =~= acc.links);
        assert(both(acc, nothing()).tags =~= acc.tags);
    } else {
        let none = Interior { target: Seq::empty(), anchor: None, alias: None };
        wiki_bounds(text.skip(i + 2), 0, none, Part::Target);
        let (e, one) = if opens_link(text, i) {
            match wiki(text.skip(i + 2)) {
                WikiView::Found(_, _, _, n) => (
                    i + 2 + n,
                    Found { links: seq![link_there(text, block, i)->0], tags: Seq::empty() },
                ),
                WikiView::Invalid(n) => (i + 2 + n, nothing()),
                WikiView::NoTerminator => (i + find(text.skip(i), '\n') + 1, nothing()),
            }
        } else {
            match tag_at(text, place, i) {
                Some(tag) => (
                    i + 1 + tag.len(),
                    Found {
                        links: Seq::empty(),
                        tags: seq![TagView { tag, block: Some(block) }],
                    },
                ),
                None => (i + 1, nothing()),
            }
        };
        let mid = both(acc, one);
        let first = both(nothing(), one);
        if one.links.len() > 0 {
            assert(mid.links =~= acc.links.push(one.links[0]));
            assert(first.links =~= nothing().links.push(one.links[0]));
        } else {
            assert(mid.links =~= acc.links);
            assert(first.links =~= nothing().links);
        }
        if one.tags.len() > 0 {
            assert(mid.tags =~= acc.tags.push(one.tags[0]));
            assert(first.tags =~= nothing().tags.push(one.tags[0]));
        } else {
            assert(mid.tags =~= acc.tags);
            assert(first.tags =~= nothing().tags);
        }
        assert(scanned(text, place, block, i, acc) == scanned(text, place, block, e, mid));
        assert(scanned(text, place, block, i, nothing()) == scanned(text, place, block, e, first));
        a_scan_adds(text, place, block, e, mid);
        a_scan_adds(text, place, block, e, first);
        let rest = scanned(text, place, block, e, nothing());
        both_three(acc, one, rest);
        both_three(nothing(), one, rest);
        assert(both(nothing(), both(one, rest)).links =~= both(one, rest).links);
        assert(both(nothing(), both(one, rest)).tags =~= both(one, rest).tags);
    }
}

/// The links in one unit of a block.
pub open spec fn unit_links(source: Seq<char>, units: Seq<UnitView>, block: u32, k: int) -> Seq<
    LinkView,
> {
    scanned_unit(
        source,
        units[k],
        block,
        first_range(units),
        Found { links: Seq::empty(), tags: Seq::empty() },
    ).links
}

/// The tags in one unit of a block.
pub open spec fn unit_tags(source: Seq<char>, units: Seq<UnitView>, block: u32, k: int) -> Seq<
    TagView,
> {
    scanned_unit(
        source,
        units[k],
        block,
        first_range(units),
        Found { links: Seq::empty(), tags: Seq::empty() },
    ).tags
}

spec fn unit_found(source: Seq<char>, units: Seq<UnitView>, block: u32, n: int) -> Found {
    Found {
        links: Seq::new(n as nat, |k: int| unit_links(source, units, block, k)).flatten(),
        tags: Seq::new(n as nat, |k: int| unit_tags(source, units, block, k)).flatten(),
    }
}

proof fn units_add(source: Seq<char>, units: Seq<UnitView>, n: int, block: u32, acc: Found)
    requires
        0 <= n <= units.len(),
    ensures
        scanned_units(source, units, n, block, acc) == both(
            acc,
            unit_found(source, units, block, n),
        ),
    decreases n,
{
    let ls = Seq::new(n as nat, |k: int| unit_links(source, units, block, k));
    let ts = Seq::new(n as nat, |k: int| unit_tags(source, units, block, k));
    if n > 0 {
        units_add(source, units, n - 1, block, acc);
        let before = unit_found(source, units, block, n - 1);
        let mid = scanned_units(source, units, n - 1, block, acc);
        let start = first_range(units);
        match units[n - 1] {
            UnitView::Range(r) => {
                let place = Place {
                    offset: Some(r.start as int),
                    before: char_before(source, r.start as int),
                    block_start: start,
                };
                a_scan_adds(
                    sub_text(source, r.start as int, r.end as int),
                    place,
                    block,
                    0,
                    mid,
                );
            },
            UnitView::Literal(t) => {
                let place = Place { offset: None, before: None, block_start: start };
                a_scan_adds(t, place, block, 0, mid);
            },
        }
        let one = Found {
            links: unit_links(source, units, block, n - 1),
            tags: unit_tags(source, units, block, n - 1),
        };
        assert(scanned_units(source, units, n, block, acc) == both(mid, one));
        both_three(acc, before, one);
        let l0 = Seq::new((n - 1) as nat, |k: int| unit_links(source, units, block, k));
        let t0 = Seq::new((n - 1) as nat, |k: int| unit_tags(source, units, block, k));
        assert(ls =~= l0.push(one.links));
        assert(ts =~= t0.push(one.tags));
        l0.lemma_flatten_push(one.links);
        t0.lemma_flatten_push(one.tags);
        assert(both(before, one) == unit_found(source, units, block, n));
    } else {
        assert(ls =~= Seq::empty());
        assert(ts =~= Seq::empty());
        assert(both(acc, unit_found(source, units, block, n)).links =~= acc.links);
        assert(both(acc, unit_found(source, units, block, n)).tags =~= acc.tags);
    }
}

/// The links in the text of one block, unit by unit.
pub open spec fn links_of_block(source: Seq<char>, units: Seq<UnitView>, block: u32) -> Seq<
    LinkView,
> {
    Seq::new(units.len(), |k: int| unit_links(source, units, block, k)).flatten()
}

/// The tags in the text of one block, unit by unit.
pub open spec fn tags_of_block(source: Seq<char>, units: Seq<UnitView>, block: u32) -> Seq<
    TagView,
> {
    Seq::new(units.len(), |k: int| unit_tags(source, units, block, k)).flatten()
}

/// The references of a document are those in every unit of every block, in order, after
/// what was there before; each is of the block that its text is of, and what is found in
/// one unit does not rest on any other.
pub proof fn every_unit_is_scanned(
    source: Seq<char>,
    blocks: Seq<Seq<UnitView>>,
    n: int,
    acc: Found,
)
    requires
        0 <= n <= blocks.len(),
    ensures
        ({
            let out = scanned_blocks(source, blocks, n, acc);
            &&& out.links == acc.links + Seq::new(
                n as nat,
                |i: int| links_of_block(source, blocks[i], i as u32),
            ).flatten()
            &&& out.tags == acc.tags + Seq::new(
                n as nat,
                |i: int| tags_of_block(source, blocks[i], i as u32),
            ).flatten()
        }),
    decreases n,
{
    let ls = Seq::new(n as nat, |i: int| links_of_block(source, blocks[i], i as u32));
    let ts = Seq::new(n as nat, |i: int| tags_of_block(source, blocks[i], i as u32));
    let out = scanned_blocks(source, blocks, n, acc);
    if n > 0 {
        every_unit_is_scanned(source, blocks, n - 1, acc);
        let units = blocks[n - 1];
        let mid = scanned_blocks(source, blocks, n - 1, acc);
        units_add(source, units, units.len() as int, (n - 1) as u32, mid);
        let l0 = Seq::new((n - 1) as nat, |i: int| links_of_block(source, blocks[i], i as u32));
        let t0 = Seq::new((n - 1) as nat, |i: int| tags_of_block(source, blocks[i], i as u32));
        let l1 = links_of_block(source, units, (n - 1) as u32);
        let t1 = tags_of_block(source, units, (n - 1) as u32);
        assert(ls =~= l0.push(l1));
        assert(ts =~= t0.push(t1));
        l0.lemma_flatten_push(l1);
        t0.lemma_flatten_push(t1);
        assert(out.links =~= acc.links + ls.flatten());
        assert(out.tags =~= acc.tags + ts.flatten());
    } else {
        assert(ls =~= Seq::empty());
        assert(ts =~= Seq::empty());
        assert(out.links =~= acc.links + ls.flatten());
        assert(out.tags =~= acc.tags + ts.flatten());
    }
}

} // verus!
