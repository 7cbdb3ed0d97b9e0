//! Erasure and retention: which columns are swept and how each is redacted, when
//! an erasure is refused, and how far history is kept.

use vstd::prelude::*;
use vstd::string::*;

use crate::errors::Pm;
use crate::history::PreView;
use crate::ids::{uuid_text, Uuid};
use crate::json::{get, Json, JsonView};
use crate::state::StateView;
use crate::text::{concat, from_chars, joined, str_eq, to_chars};
use crate::timetravel::reconstructed;

verus! {

// ---- what is erased ----

/// What an erasure is of.
#[derive(Debug, Clone, Copy, PartialEq, Eq, Structural)]
pub enum TargetKind {
    Literal,
    Note,
    Block,
}

impl TargetKind {
    pub open spec fn label(self) -> Seq<char> {
        match self {
            TargetKind::Literal => "literal"@,
            TargetKind::Note => "note"@,
            TargetKind::Block => "block"@,
        }
    }

    /// The name of the kind.
    pub fn name(self) -> (r: &'static str)
        ensures
            r@ == self.label(),
    {
        match self {
            TargetKind::Literal => "literal",
            TargetKind::Note => "note",
            TargetKind::Block => "block",
        }
    }
}

/// The text under a key, where it is one.
pub open spec fn text_under(j: JsonView, key: Seq<char>) -> Option<Seq<char>> {
    match j.get(key) {
        Some(JsonView::Str(t)) => Some(t),
        _ => None,
    }
}

fn get_text(j: &Json, key: &str) -> (r: Option<String>)
    ensures
        text_under(j@, key@) == (match r {
            Some(t) => Some(t@),
            None => None,
        }),
{
    match get(j, key) {
        Some(Json::Str(t)) => Some(t.clone()),
        _ => None,
    }
}

/// The target that an erasure names: a literal, else a note's path, else a
/// block's id.
pub open spec fn target_of(j: JsonView) -> Option<(TargetKind, Seq<char>)> {
    if text_under(j, "literal"@) is Some {
        Some((TargetKind::Literal, text_under(j, "literal"@)->0))
    } else if text_under(j, "path"@) is Some {
        Some((TargetKind::Note, text_under(j, "path"@)->0))
    } else if text_under(j, "block_id"@) is Some {
        Some((TargetKind::Block, text_under(j, "block_id"@)->0))
    } else {
        None
    }
}

/// The target that an erasure names.
pub fn excision_target(j: &Json) -> (r: Option<(TargetKind, String)>)
    ensures
        target_of(j@) == (match r {
            Some((k, t)) => Some((k, t@)),
            None => None,
        }),
{
    match get_text(j, "literal") {
        Some(t) => Some((TargetKind::Literal, t)),
        None => match get_text(j, "path") {
            Some(t) => Some((TargetKind::Note, t)),
            None => match get_text(j, "block_id") {
                Some(t) => Some((TargetKind::Block, t)),
                None => None,
            },
        },
    }
}

/// What a recorded erasure is verified with: the first of the three that is there,
/// if it is a text.
pub open spec fn needle_of(j: JsonView) -> Seq<char> {
    let first = if j.get("literal"@) is Some {
        j.get("literal"@)
    } else if j.get("path"@) is Some {
        j.get("path"@)
    } else {
        j.get("block_id"@)
    };
    match first {
        Some(JsonView::Str(t)) => t,
        _ => ""@,
    }
}

/// What a recorded erasure is verified with.
pub fn replay_needle(j: &Json) -> (r: String)
    ensures
        r@ == needle_of(j@),
{
    let first = match get(j, "literal") {
        Some(v) => Some(v),
        None => match get(j, "path") {
            Some(v) => Some(v),
            None => get(j, "block_id"),
        },
    };
    match first {
        Some(Json::Str(t)) => t.clone(),
        _ => "".to_owned(),
    }
}

/// An erasure that goes through is verified with what it erased.
pub proof fn a_target_is_its_own_needle(j: JsonView)
    requires
        target_of(j) is Some,
        j.get("literal"@) matches Some(v) ==> v is Str,
        j.get("path"@) matches Some(v) ==> v is Str,
    ensures
        needle_of(j) == (target_of(j)->0).1,
{
}

/// Why an erasure is refused.
#[derive(Debug, Clone, Copy, PartialEq, Eq, Structural)]
pub enum ExcisionFault {
    /// The target names nothing.
    NoTarget,
    /// The content is still live; this many rows.
    StillLive(i64),
    /// The content is still there; on this many surfaces.
    Incomplete(usize),
}

impl ExcisionFault {
    pub open spec fn pm(self) -> Pm {
        match self {
            ExcisionFault::NoTarget => Pm::ExcisionRefused,
            ExcisionFault::StillLive(_) => Pm::ExcisionRefused,
            ExcisionFault::Incomplete(_) => Pm::ExcisionIncomplete,
        }
    }

    pub open spec fn text(self) -> Seq<char> {
        match self {
            ExcisionFault::NoTarget => "target must name a literal, a path, or a block_id"@,
            ExcisionFault::StillLive(_) => "target is still live at head"@,
            ExcisionFault::Incomplete(_) => "excision left the content in place"@,
        }
    }

    /// The error that the fault raises.
    pub fn code(self) -> (r: Pm)
        ensures
            r == self.pm(),
    {
        match self {
            ExcisionFault::NoTarget => Pm::ExcisionRefused,
            ExcisionFault::StillLive(_) => Pm::ExcisionRefused,
            ExcisionFault::Incomplete(_) => Pm::ExcisionIncomplete,
        }
    }

    /// The message that the fault raises.
    pub fn message(self) -> (r: &'static str)
        ensures
            r@ == self.text(),
    {
        match self {
            ExcisionFault::NoTarget => "target must name a literal, a path, or a block_id",
            ExcisionFault::StillLive(_) => "target is still live at head",
            ExcisionFault::Incomplete(_) => "excision left the content in place",
        }
    }
}

/// What an erasure does next.
#[derive(Debug, Clone, Copy, PartialEq, Eq, Structural)]
pub enum ExcisionStep {
    /// Only report what would be done.
    Report,
    /// Erase, and first remove the live content if there is any.
    Erase { remove_live: bool },
}

/// What an erasure does, given how many live rows have the content. Live content
/// is refused rather than spared, unless it is to be removed too.
pub open spec fn excision_step(live: i64, and_head: bool, dry_run: bool) -> Result<
    ExcisionStep,
    ExcisionFault,
> {
    if live > 0 && !and_head {
        Err(ExcisionFault::StillLive(live))
    } else if dry_run {
        Ok(ExcisionStep::Report)
    } else {
        Ok(ExcisionStep::Erase { remove_live: and_head && live > 0 })
    }
}

/// What an erasure does.
pub fn excise(live: i64, and_head: bool, dry_run: bool) -> (r: Result<ExcisionStep, ExcisionFault>)
    ensures
        r == excision_step(live, and_head, dry_run),
{
    if live > 0 && !and_head {
        return Err(ExcisionFault::StillLive(live));
    }
    if dry_run {
        Ok(ExcisionStep::Report)
    } else {
        Ok(ExcisionStep::Erase { remove_live: and_head && live > 0 })
    }
}

/// Ends an erasure: survivors undo it.
pub fn finish_excision(survivors: usize) -> (r: Result<(), ExcisionFault>)
    ensures
        r == (if survivors > 0 {
            Err::<(), ExcisionFault>(ExcisionFault::Incomplete(survivors))
        } else {
            Ok::<(), ExcisionFault>(())
        }),
{
    if survivors > 0 {
        Err(ExcisionFault::Incomplete(survivors))
    } else {
        Ok(())
    }
}

/// Erasing is never an accident, and never leaves a live copy: only a run that is
/// no dry run erases, and only with the live content gone or going.
pub proof fn nothing_is_erased_by_accident(live: i64, and_head: bool, dry_run: bool)
    ensures
        excision_step(live, and_head, dry_run) matches Ok(ExcisionStep::Erase { remove_live }) ==> {
            &&& !dry_run
            &&& live > 0 ==> remove_live
        },
{
}

// ---- the columns ----

/// A column that can hold text.
#[derive(Debug)]
pub struct TextColumn {
    pub table: String,
    pub column: String,
    pub ty: String,
    pub generated: bool,
    /// Its table says which vault a row is of.
    pub vault_scoped: bool,
}

/// What a column is.
pub ghost struct ColumnView {
    pub table: Seq<char>,
    pub column: Seq<char>,
    pub ty: Seq<char>,
    pub generated: bool,
    pub vault_scoped: bool,
}

impl DeepView for TextColumn {
    type V = ColumnView;

    open spec fn deep_view(&self) -> ColumnView {
        ColumnView {
            table: self.table@,
            column: self.column@,
            ty: self.ty@,
            generated: self.generated,
            vault_scoped: self.vault_scoped,
        }
    }
}

/// The tables that hold no content: the executable targets of erasures, and the
/// registry of vaults.
pub open spec fn not_content(table: Seq<char>) -> bool {
    table == "excision_replay"@ || table == "vault"@
}

/// Whether a table holds no content.
pub fn is_not_content(table: &str) -> (r: bool)
    ensures
        r == not_content(table@),
{
    str_eq(table, "excision_replay") || str_eq(table, "vault")
}

/// The condition that confines a statement to one vault.
pub open spec fn scope_text(second: bool) -> Seq<char> {
    if second {
        "AND vault_id = $2"@
    } else {
        "AND vault_id = $3"@
    }
}

/// The condition that confines a statement to one vault; none for a table that
/// cannot be confined, which must stop the whole erasure: sweeping it would reach
/// into other vaults.
pub fn vault_predicate(col: &TextColumn, second: bool) -> (r: Option<&'static str>)
    ensures
        match r {
            Some(t) => col.vault_scoped && t@ == scope_text(second),
            None => !col.vault_scoped,
        },
{
    if !col.vault_scoped {
        None
    } else if second {
        Some("AND vault_id = $2")
    } else {
        Some("AND vault_id = $3")
    }
}

/// A column's value as text.
pub open spec fn text_expr(c: ColumnView) -> Seq<char> {
    if c.ty == "text[]"@ {
        "array_to_string("@ + c.column + ", ' ')"@
    } else if c.ty == "bytea"@ {
        "encode("@ + c.column + ", 'escape')"@
    } else {
        c.column + "::text"@
    }
}

/// A column's value as text.
pub fn column_expr(c: &TextColumn) -> (r: String)
    ensures
        r@ == text_expr(c.deep_view()),
{
    if str_eq(c.ty.as_str(), "text[]") {
        let mut out = "array_to_string(".to_owned();
        out.append(c.column.as_str());
        out.append(", ' ')");
        out
    } else if str_eq(c.ty.as_str(), "bytea") {
        let mut out = "encode(".to_owned();
        out.append(c.column.as_str());
        out.append(", 'escape')");
        out
    } else {
        let mut out = c.column.clone();
        out.append("::text");
        out
    }
}

/// The statement that counts the rows of a vault whose column holds a text.
pub open spec fn sweep_sql(c: ColumnView) -> Seq<char> {
    "SELECT count(*) FROM pgmind."@ + c.table + " WHERE "@ + text_expr(c)
        + " IS NOT NULL AND position($1 in "@ + text_expr(c) + ") > 0 "@ + scope_text(true)
}

/// The statement that counts the rows of a vault whose column holds a text.
pub fn sweep_statement(c: &TextColumn) -> (r: Option<String>)
    ensures
        match r {
            Some(t) => c.vault_scoped && t@ == sweep_sql(c.deep_view()),
            None => !c.vault_scoped,
        },
{
    let scope = match vault_predicate(c, true) {
        Some(s) => s,
        None => {
            return None;
        },
    };
    let expr = column_expr(c);
    let mut out = "SELECT count(*) FROM pgmind.".to_owned();
    out.append(c.table.as_str());
    out.append(" WHERE ");
    out.append(expr.as_str());
    out.append(" IS NOT NULL AND position($1 in ");
    out.append(expr.as_str());
    out.append(") > 0 ");
    out.append(scope);
    Some(out)
}

/// How a column is redacted.
pub ghost enum Redaction {
    /// It is left alone: it holds no content, is derived from what is redacted, or
    /// is of a type that holds no text.
    Skip,
    /// It cannot be confined to one vault.
    Refuse,
    Run(Seq<char>),
}

/// What a column is set to where it is redacted, if it is of a type that holds text.
pub open spec fn redacted_value(c: ColumnView) -> Option<Seq<char>> {
    if c.ty == "text"@ && c.column == "prev_content"@ {
        Some("NULL"@)
    } else if c.ty == "text[]"@ {
        Some(
            "(SELECT array_agg(replace(e, $1, $2) ORDER BY o) FROM unnest("@ + c.column
                + ") WITH ORDINALITY AS u(e, o))"@,
        )
    } else if c.ty == "text"@ {
        Some("replace("@ + c.column + ", $1, $2)"@)
    } else if c.ty == "jsonb"@ {
        Some("replace("@ + c.column + "::text, $1, $2)::jsonb"@)
    } else {
        None
    }
}

/// What else is set where a column is redacted.
pub open spec fn redacted_beside(c: ColumnView) -> Seq<char> {
    if c.ty == "text"@ && c.column == "prev_content"@ {
        ", prev_content_hash = NULL, prev_attrs = NULL, prev_block_ref_id = NULL, redacted = true"@
    } else {
        ""@
    }
}

/// Which rows a redaction is of.
pub open spec fn redacted_where(c: ColumnView) -> Seq<char> {
    if c.ty == "text[]"@ {
        "array_to_string("@ + c.column + ", ' ') LIKE '%' || $1 || '%'"@
    } else if c.ty == "text"@ {
        "position($1 in "@ + c.column + ") > 0"@
    } else {
        "position($1 in "@ + c.column + "::text) > 0"@
    }
}

/// How a column is redacted: rows of effects keep their skeleton and lose their
/// content; texts are spliced, so that what stands beside the erased text stays.
pub open spec fn redaction_of(c: ColumnView) -> Redaction {
    if not_content(c.table) || c.generated {
        Redaction::Skip
    } else if !c.vault_scoped {
        Redaction::Refuse
    } else {
        match redacted_value(c) {
            Some(value) => Redaction::Run(
                "UPDATE pgmind."@ + c.table + " SET "@ + c.column + " = "@ + value
                    + redacted_beside(c) + " WHERE "@ + redacted_where(c) + " "@ + scope_text(
                    false,
                ),
            ),
            None => Redaction::Skip,
        }
    }
}

/// The statement that redacts a column, if it is to be redacted; an error if it
/// cannot be confined to one vault.
pub fn redaction_statement(c: &TextColumn) -> (r: Result<Option<String>, ()>)
    ensures
        redaction_of(c.deep_view()) == (match r {
            Ok(Some(t)) => Redaction::Run(t@),
            Ok(None) => Redaction::Skip,
            Err(_) => Redaction::Refuse,
        }),
{
    if is_not_content(c.table.as_str()) || c.generated {
        return Ok(None);
    }
    let scope = match vault_predicate(c, false) {
        Some(s) => s,
        None => {
            return Err(());
        },
    };
    let column = c.column.as_str();
    let ty = c.ty.as_str();
    let mut out = "UPDATE pgmind.".to_owned();
    out.append(c.table.as_str());
    out.append(" SET ");
    out.append(column);
    out.append(" = ");
    let ghost head = out@;
    if str_eq(ty, "text") && str_eq(column, "prev_content") {
        out.append("NULL");
        out.append(
            ", prev_content_hash = NULL, prev_attrs = NULL, prev_block_ref_id = NULL, redacted = true",
        );
        out.append(" WHERE ");
        out.append("position($1 in ");
        out.append(column);
        out.append(") > 0");
    } else if str_eq(ty, "text[]") {
        out.append("(SELECT array_agg(replace(e, $1, $2) ORDER BY o) FROM unnest(");
        out.append(column);
        out.append(") WITH ORDINALITY AS u(e, o))");
        out.append(" WHERE ");
        out.append("array_to_string(");
        out.append(column);
        out.append(", ' ') LIKE '%' || $1 || '%'");
    } else if str_eq(ty, "text") {
        out.append("replace(");
        out.append(column);
        out.append(", $1, $2)");
        out.append(" WHERE ");
        out.append("position($1 in ");
        out.append(column);
        out.append(") > 0");
    } else if str_eq(ty, "jsonb") {
        out.append("replace(");
        out.append(column);
        out.append("::text, $1, $2)::jsonb");
        out.append(" WHERE ");
        out.append("position($1 in ");
        out.append(column);
        out.append("::text) > 0");
    } else {
        return Ok(None);
    }
    proof {
        let v = c.deep_view();
        reveal_strlit("");
        reveal_strlit("text");
        reveal_strlit("text[]");
        assert("text"@.len() != "text[]"@.len());
        assert(out@ =~= head + redacted_value(v)->0 + redacted_beside(v) + " WHERE "@
            + redacted_where(v));
    }
    out.append(" ");
    out.append(scope);
    Ok(Some(out))
}

/// What stands in the place of an erased text.
pub fn redaction_marker(excision: Uuid) -> (r: String)
    ensures
        r@ == "⟨redacted pgmind:"@ + uuid_text(excision) + "⟩"@,
{
    let mut out = "⟨redacted pgmind:".to_owned();
    out.append(excision.to_text().as_str());
    out.append("⟩");
    out
}

/// The first column from `i` on that would have to be swept and cannot be confined
/// to one vault.
pub open spec fn first_unscoped(cols: Seq<ColumnView>, i: int) -> Option<int>
    decreases cols.len() - i,
{
    if i < 0 || i >= cols.len() {
        None
    } else if !not_content(cols[i].table) && !cols[i].vault_scoped {
        Some(i)
    } else {
        first_unscoped(cols, i + 1)
    }
}

/// The columns among the first `n` that are swept.
pub open spec fn swept(cols: Seq<ColumnView>, n: int) -> Seq<int>
    decreases n,
{
    if n <= 0 {
        Seq::empty()
    } else if not_content(cols[n - 1].table) {
        swept(cols, n - 1)
    } else {
        swept(cols, n - 1).push(n - 1)
    }
}

/// The statements that sweep for a text: one for every column that can hold it,
/// but for the tables that hold no content; the index of a column that cannot be
/// confined to one vault is an error.
pub fn sweep(cols: &Vec<TextColumn>) -> (r: Result<Vec<(usize, String)>, usize>)
    ensures
        match r {
            Ok(v) => {
                let want = swept(cols.deep_view(), cols.len() as int);
                &&& first_unscoped(cols.deep_view(), 0) is None
                &&& v.len() == want.len()
                &&& forall|k: int|
                    0 <= k < v.len() ==> (#[trigger] v[k]).0 == want[k] && v[k].1@ == sweep_sql(
                        cols.deep_view()[want[k]],
                    )
            },
            Err(i) => first_unscoped(cols.deep_view(), 0) == Some(i as int),
        },
{
    let ghost cv = cols.deep_view();
    let mut out: Vec<(usize, String)> = Vec::new();
    let mut i: usize = 0;
    while i < cols.len()
        invariant
            i <= cols.len(),
            cv == cols.deep_view(),
            first_unscoped(cv, 0) == first_unscoped(cv, i as int),
            out.len() == swept(cv, i as int).len(),
            forall|k: int|
                0 <= k < out.len() ==> (#[trigger] out[k]).0 == swept(cv, i as int)[k] && out[k].1@
                    == sweep_sql(cv[swept(cv, i as int)[k]]),
        decreases cols.len() - i,
    {
        assert(cv[i as int] == cols[i as int].deep_view());
        if !is_not_content(cols[i].table.as_str()) {
            match sweep_statement(&cols[i]) {
                Some(sql) => {
                    out.push((i, sql));
                },
                None => {
                    return Err(i);
                },
            }
        }
        i += 1;
    }
    Ok(out)
}

// ---- removing live content ----

/// A text without any occurrence of another, taken from the left.
pub open spec fn without(s: Seq<char>, needle: Seq<char>) -> Seq<char>
    decreases s.len(),
{
    if needle.len() == 0 || s.len() < needle.len() {
        s
    } else if s.take(needle.len() as int) == needle {
        without(s.skip(needle.len() as int), needle)
    } else {
        seq![s[0]] + without(s.drop_first(), needle)
    }
}

/// Takes every occurrence of a text out of another.
pub fn remove_text(s: &str, needle: &str) -> (r: String)
    ensures
        r@ == without(s@, needle@),
{
    let a = to_chars(s);
    let b = to_chars(needle);
    let mut out = String::new();
    let mut i: usize = 0;
    let ghost v = a@;
    let ghost n = b@;
    if b.len() == 0 {
        return s.to_owned();
    }
    proof {
        assert(v.skip(0) =~= v);
        assert(out@ + without(v, n) =~= without(v, n));
    }
    while i < a.len() && b.len() <= a.len() - i
        invariant
            i <= a.len(),
            v == a@,
            n == b@,
            n.len() > 0,
            out@ + without(v.skip(i as int), n) == without(v, n),
        decreases a.len() - i,
    {
        let ghost rest = v.skip(i as int);
        let mut k: usize = 0;
        while k < b.len() && a[i + k] == b[k]
            invariant
                k <= b.len(),
                i + b.len() <= a.len(),
                v == a@,
                n == b@,
                rest == v.skip(i as int),
                forall|j: int| 0 <= j < k ==> #[trigger] rest[j] == n[j],
            decreases b.len() - k,
        {
            assert(rest[k as int] == v[i + k]);
            k += 1;
        }
        if k == b.len() {
            proof {
                assert(rest.take(n.len() as int) =~= n);
                assert(rest.skip(n.len() as int) =~= v.skip(i + n.len()));
            }
            i += b.len();
        } else {
            let ghost before = out@;
            out.push(a[i]);
            proof {
                assert(rest[k as int] == v[i + k]);
                assert(rest.take(n.len() as int)[k as int] != n[k as int]);
                assert(rest.drop_first() =~= v.skip(i + 1));
                assert(rest[0] == v[i as int]);
                let tail = without(v.skip(i + 1), n);
                assert(before + (seq![rest[0]] + tail) =~= out@ + tail);
            }
            i += 1;
        }
    }
    let tail = from_chars(&a, i, a.len());
    proof {
        assert(tail@ =~= v.skip(i as int));
        assert(without(v.skip(i as int), n) == v.skip(i as int));
    }
    out.append(tail.as_str());
    out
}

// ---- retention ----

/// The floor that keeping this many revisions raises to; the head is always kept,
/// and no floor is lowered.
pub open spec fn raised_floor(head: int, floor: int, keep: Option<i64>) -> int {
    let n = match keep {
        Some(k) => if k < 1 {
            1
        } else {
            k as int
        },
        None => i64::MAX as int,
    };
    let at = head - n + 1;
    if at > floor {
        at
    } else {
        floor
    }
}

/// The floor that a note's history is cut off at, where it rises.
pub fn retain(head: i64, floor: i64, keep: Option<i64>) -> (r: Option<i64>)
    ensures
        match r {
            Some(f) => f == raised_floor(head as int, floor as int, keep) && f > floor,
            None => raised_floor(head as int, floor as int, keep) == floor,
        },
{
    let n: i64 = match keep {
        Some(k) => if k < 1 {
            1
        } else {
            k
        },
        None => i64::MAX,
    };
    let at: i128 = head as i128 - n as i128 + 1;
    if at > floor as i128 {
        Some(at as i64)
    } else {
        None
    }
}

/// Retention never lowers a floor, never takes the head, and keeps as many
/// revisions as asked for, or all there are.
pub proof fn retention_keeps_what_was_asked(head: int, floor: int, keep: i64)
    requires
        0 <= floor <= head,
        keep >= 1,
    ensures
        ({
            let f = raised_floor(head, floor, Some(keep));
            &&& floor <= f <= head
            &&& head - f + 1 == (if keep <= head - floor + 1 {
                keep as int
            } else {
                head - floor + 1
            })
        }),
{
}

/// The revisions at a floor or above it.
pub open spec fn kept(revs: Seq<(i64, PreView)>, floor: int) -> Seq<(i64, PreView)>
    decreases revs.len(),
{
    if revs.len() == 0 {
        revs
    } else if revs[0].0 >= floor {
        seq![revs[0]] + kept(revs.drop_first(), floor)
    } else {
        kept(revs.drop_first(), floor)
    }
}

/// What is at the floor or above it reads as before: cutting history off below a
/// floor changes no read at the floor or above it.
pub proof fn retention_changes_no_read_above(
    target: int,
    anchor: int,
    s: StateView,
    revs: Seq<(i64, PreView)>,
    floor: int,
)
    requires
        floor <= target,
    ensures
        reconstructed(target, anchor, s, kept(revs, floor)) == reconstructed(
            target,
            anchor,
            s,
            revs,
        ),
    decreases revs.len(),
{
    if revs.len() > 0 {
        let rest = revs.drop_first();
        let k = kept(revs, floor);
        if revs[0].0 >= floor {
            assert(k[0] == revs[0]);
            assert(k.drop_first() =~= kept(rest, floor));
            if target < revs[0].0 <= anchor {
                if let Some(t) = crate::timetravel::rewound(s, revs[0].1) {
                    retention_changes_no_read_above(target, anchor, t, rest, floor);
                }
            } else {
                retention_changes_no_read_above(target, anchor, s, rest, floor);
            }
        } else {
            retention_changes_no_read_above(target, anchor, s, rest, floor);
        }
    }
}

// ---- verifying ----

/// What verifying an erasure comes to.
#[derive(Debug)]
pub enum VerifyStep {
    /// The vault has no such erasure: one of another vault is as one that never was.
    Unknown,
    /// What was erased is not on record here.
    NoTarget,
    /// The text to sweep for.
    Sweep(String),
}

/// What verifying an erasure comes to.
pub fn verify_excision(known: bool, target: Option<&Json>) -> (r: VerifyStep)
    ensures
        match r {
            VerifyStep::Unknown => !known,
            VerifyStep::NoTarget => known && target is None,
            VerifyStep::Sweep(t) => known && target is Some && t@ == needle_of(target->0@),
        },
{
    if !known {
        return VerifyStep::Unknown;
    }
    match target {
        None => VerifyStep::NoTarget,
        Some(j) => VerifyStep::Sweep(replay_needle(j)),
    }
}

/// Whether a sweep proves an erasure: nothing was found, and something was looked
/// at.
pub fn proves_erasure(scanned: usize, hits: usize) -> (r: bool)
    ensures
        r == (scanned > 0 && hits == 0),
{
    scanned > 0 && hits == 0
}

// ---- what a redaction leaves ----

/// A text holds another.
pub open spec fn occurs(s: Seq<char>, needle: Seq<char>) -> bool {
    exists|i: int|
        0 <= i <= s.len() - needle.len() && #[trigger] s.subrange(i, i + needle.len()) == needle
}

/// A text with every occurrence of another replaced, taken from the left.
pub open spec fn replaced(s: Seq<char>, needle: Seq<char>, by: Seq<char>) -> Seq<char>
    decreases s.len(),
{
    if needle.len() == 0 || s.len() < needle.len() {
        s
    } else if s.take(needle.len() as int) == needle {
        by + replaced(s.skip(needle.len() as int), needle, by)
    } else {
        seq![s[0]] + replaced(s.drop_first(), needle, by)
    }
}

/// What a column holds in a row.
pub ghost enum Cell {
    Null,
    Text(Seq<char>),
    Texts(Seq<Seq<char>>),
}

impl Cell {
    /// The column's value as text.
    pub open spec fn shown(self) -> Option<Seq<char>> {
        match self {
            Cell::Null => None,
            Cell::Text(t) => Some(t),
            Cell::Texts(ts) => Some(joined(ts, seq![' '])),
        }
    }

    pub open spec fn holds(self, needle: Seq<char>) -> bool {
        self.shown() matches Some(t) && occurs(t, needle)
    }
}

/// The ways in which a column is cleared of a text.
pub ghost enum Clearing {
    /// Nothing is left.
    Empty,
    /// Every occurrence in the text is replaced.
    Splice,
    /// Every occurrence in the text of a JSON value is replaced.
    SpliceJson,
    /// Every occurrence in every text of an array is replaced.
    SpliceEach,
}

impl Clearing {
    /// The expression that clears a column: `$1` is what goes, `$2` what stands in its
    /// place.
    pub open spec fn expr(self, column: Seq<char>) -> Seq<char> {
        match self {
            Clearing::Empty => "NULL"@,
            Clearing::Splice => "replace("@ + column + ", $1, $2)"@,
            Clearing::SpliceJson => "replace("@ + column + "::text, $1, $2)::jsonb"@,
            Clearing::SpliceEach => "(SELECT array_agg(replace(e, $1, $2) ORDER BY o) FROM unnest("@
                + column + ") WITH ORDINALITY AS u(e, o))"@,
        }
    }

    /// What that expression gives.
    pub open spec fn value(self, cell: Cell, needle: Seq<char>, by: Seq<char>) -> Cell {
        match (self, cell) {
            (Clearing::Empty, _) => Cell::Null,
            (_, Cell::Null) => Cell::Null,
            (_, Cell::Text(t)) => Cell::Text(replaced(t, needle, by)),
            (_, Cell::Texts(ts)) => Cell::Texts(
                Seq::new(ts.len(), |i: int| replaced(ts[i], needle, by)),
            ),
        }
    }
}

/// A statement sets a column of a table to a value, and maybe other columns, in the
/// rows that a condition holds of, in one vault.
pub open spec fn sets_column(
    sql: Seq<char>,
    table: Seq<char>,
    column: Seq<char>,
    value: Seq<char>,
    beside: Seq<char>,
    cond: Seq<char>,
) -> bool {
    sql == "UPDATE pgmind."@ + table + " SET "@ + column + " = "@ + value + beside + " WHERE "@
        + cond + " "@ + "AND vault_id = $3"@
}

/// A statement counts the rows of a table, in one vault, where a value holds `$1`.
pub open spec fn counts_rows(sql: Seq<char>, table: Seq<char>, value: Seq<char>) -> bool {
    sql == "SELECT count(*) FROM pgmind."@ + table + " WHERE "@ + value
        + " IS NOT NULL AND position($1 in "@ + value + ") > 0 "@ + "AND vault_id = $2"@
}

/// How a column of this type is cleared, if it can hold content as text.
pub open spec fn clearing_for(ty: Seq<char>, column: Seq<char>) -> Option<Clearing> {
    if ty == "text[]"@ {
        Some(Clearing::SpliceEach)
    } else if ty == "jsonb"@ {
        Some(Clearing::SpliceJson)
    } else if ty == "text"@ && column == "prev_content"@ {
        Some(Clearing::Empty)
    } else if ty == "text"@ {
        Some(Clearing::Splice)
    } else {
        None
    }
}

/// Every column that is swept for a text, is not derived from another and holds text
/// is redacted, by a statement that sets that very column, in its own table and one
/// vault, to a value that is cleared of the text; a column that cannot be confined to
/// one vault stops the erasure. An effect that loses its content loses what was made of
/// it too, and says so.
pub proof fn a_redaction_clears_its_column(c: ColumnView)
    requires
        !not_content(c.table),
        !c.generated,
    ensures
        !c.vault_scoped <==> redaction_of(c) is Refuse,
        c.vault_scoped ==> match clearing_for(c.ty, c.column) {
            Some(k) => exists|sql: Seq<char>, beside: Seq<char>, cond: Seq<char>|
                {
                    &&& redaction_of(c) == Redaction::Run(sql)
                    &&& #[trigger] sets_column(
                        sql,
                        c.table,
                        c.column,
                        k.expr(c.column),
                        beside,
                        cond,
                    )
                    &&& cond == (if k is SpliceEach {
                        "array_to_string("@ + c.column + ", ' ') LIKE '%' || $1 || '%'"@
                    } else if k is SpliceJson {
                        "position($1 in "@ + c.column + "::text) > 0"@
                    } else {
                        "position($1 in "@ + c.column + ") > 0"@
                    })
                    &&& beside == (if k is Empty {
                        ", prev_content_hash = NULL, prev_attrs = NULL, prev_block_ref_id = NULL, redacted = true"@
                    } else {
                        ""@
                    })
                },
            None => redaction_of(c) is Skip,
        },
        c.vault_scoped ==> counts_rows(sweep_sql(c), c.table, text_expr(c)),
{
    reveal_strlit("text");
    reveal_strlit("text[]");
    reveal_strlit("jsonb");
    assert("text"@.len() == 4 && "text[]"@.len() == 6 && "jsonb"@.len() == 5);
    if c.vault_scoped {
        if let Some(k) = clearing_for(c.ty, c.column) {
            let sql = redaction_of(c)->Run_0;
            assert(sets_column(
                sql,
                c.table,
                c.column,
                k.expr(c.column),
                redacted_beside(c),
                redacted_where(c),
            ));
        }
    }
}

/// As far as a replaced text does not come to a replacement, it is the text.
proof fn replaced_starts_alike(s: Seq<char>, needle: Seq<char>, by: Seq<char>, k: int)
    requires
        by.len() > 0,
        0 <= k <= replaced(s, needle, by).len(),
        !replaced(s, needle, by).take(k).contains(by[0]),
    ensures
        k <= s.len(),
        s.take(k) == replaced(s, needle, by).take(k),
    decreases s.len(),
{
    let r = replaced(s, needle, by);
    if needle.len() == 0 || s.len() < needle.len() || k == 0 {
        assert(s.take(k) =~= r.take(k));
    } else if s.take(needle.len() as int) == needle {
        assert(r[0] == by[0]);
        assert(r.take(k)[0] == by[0]);
    } else {
        let t = s.drop_first();
        let rest = replaced(t, needle, by);
        assert(rest.take(k - 1) =~= r.take(k).drop_first());
        if rest.take(k - 1).contains(by[0]) {
            let i = rest.take(k - 1).index_of(by[0]);
            assert(r.take(k)[i + 1] == by[0]);
        }
        replaced_starts_alike(t, needle, by, k - 1);
        assert forall|i: int| 0 <= i < k implies s.take(k)[i] == r.take(k)[i] by {
            if i > 0 {
                assert(t.take(k - 1)[i - 1] == rest.take(k - 1)[i - 1]);
            }
        }
        assert(s.take(k) =~= r.take(k));
    }
}

/// Replacing a text leaves no occurrence of it: none in what is put in its place, and
/// none across the ends of that, whose first and last characters it does not have.
pub proof fn what_is_replaced_is_gone(s: Seq<char>, needle: Seq<char>, by: Seq<char>)
    requires
        needle.len() > 0,
        by.len() > 0,
        !occurs(by, needle),
        !needle.contains(by[0]),
        !needle.contains(by.last()),
    ensures
        !occurs(replaced(s, needle, by), needle),
    decreases s.len(),
{
    let n = needle.len() as int;
    let r = replaced(s, needle, by);
    if occurs(r, needle) {
        let i = choose|i: int| 0 <= i <= r.len() - n && #[trigger] r.subrange(i, i + n) == needle;
        if s.len() < n {
        } else if s.take(n) == needle {
            let rest = replaced(s.skip(n), needle, by);
            what_is_replaced_is_gone(s.skip(n), needle, by);
            let m = by.len() as int;
            if i >= m {
                assert(rest.subrange(i - m, i - m + n) =~= needle);
            } else if i + n <= m {
                assert(by.subrange(i, i + n) =~= needle);
            } else {
                assert(r.subrange(i, i + n)[m - 1 - i] == by.last());
                assert(needle.contains(by.last()));
            }
        } else {
            let rest = replaced(s.drop_first(), needle, by);
            what_is_replaced_is_gone(s.drop_first(), needle, by);
            if i > 0 {
                assert(rest.subrange(i - 1, i - 1 + n) =~= needle);
            } else {
                assert(r.take(n) =~= needle);
                replaced_starts_alike(s, needle, by, n);
            }
        }
    }
}

proof fn not_across(a: Seq<char>, c: char, b: Seq<char>, needle: Seq<char>)
    requires
        needle.len() > 0,
        !needle.contains(c),
        !occurs(a, needle),
        !occurs(b, needle),
    ensures
        !occurs(a + seq![c] + b, needle),
{
    let s = a + seq![c] + b;
    let n = needle.len() as int;
    if occurs(s, needle) {
        let i = choose|i: int| 0 <= i <= s.len() - n && #[trigger] s.subrange(i, i + n) == needle;
        let m = a.len() as int;
        if i + n <= m {
            assert(a.subrange(i, i + n) =~= needle);
        } else if i > m {
            assert(b.subrange(i - m - 1, i - m - 1 + n) =~= needle);
        } else {
            assert(s.subrange(i, i + n)[m - i] == c);
            assert(needle.contains(c));
        }
    }
}

proof fn none_in_any(parts: Seq<Seq<char>>, needle: Seq<char>)
    requires
        needle.len() > 0,
        !needle.contains(' '),
        forall|i: int| 0 <= i < parts.len() ==> !occurs(#[trigger] parts[i], needle),
    ensures
        !occurs(joined(parts, seq![' ']), needle),
    decreases parts.len(),
{
    if parts.len() > 1 {
        let front = parts.drop_last();
        assert forall|i: int| 0 <= i < front.len() implies !occurs(#[trigger] front[i], needle) by {
            assert(front[i] == parts[i]);
        }
        none_in_any(front, needle);
        assert(!occurs(parts[parts.len() - 1], needle));
        not_across(joined(front, seq![' ']), ' ', parts.last(), needle);
    } else if parts.len() == 1 {
        assert(!occurs(parts[0], needle));
    }
}

/// Once a column is cleared of a text, no row of it holds that text: what stands in its
/// place does not hold it, and has other characters at its ends; and in an array, whose
/// texts are read with spaces between them, it has no space.
pub proof fn what_is_cleared_is_gone(k: Clearing, cell: Cell, needle: Seq<char>, by: Seq<char>)
    requires
        needle.len() > 0,
        by.len() > 0,
        !occurs(by, needle),
        !needle.contains(by[0]),
        !needle.contains(by.last()),
        cell is Texts ==> !needle.contains(' '),
    ensures
        !k.value(cell, needle, by).holds(needle),
{
    match cell {
        Cell::Null => {},
        Cell::Text(t) => {
            what_is_replaced_is_gone(t, needle, by);
        },
        Cell::Texts(ts) => {
            let out = Seq::new(ts.len(), |i: int| replaced(ts[i], needle, by));
            assert forall|i: int| 0 <= i < out.len() implies !occurs(#[trigger] out[i], needle) by {
                what_is_replaced_is_gone(ts[i], needle, by);
            }
            none_in_any(out, needle);
        },
    }
}

proof fn swept_are(cols: Seq<ColumnView>, n: int)
    requires
        0 <= n <= cols.len(),
    ensures
        forall|k: int|
            0 <= k < swept(cols, n).len() ==> 0 <= #[trigger] swept(cols, n)[k] < n && !not_content(
                cols[swept(cols, n)[k]].table,
            ),
        forall|a: int, b: int|
            0 <= a < b < swept(cols, n).len() ==> #[trigger] swept(cols, n)[a]
                < #[trigger] swept(cols, n)[b],
        forall|i: int|
            0 <= i < n && !not_content((#[trigger] cols[i]).table) ==> swept(cols, n).contains(i),
    decreases n,
{
    if n > 0 {
        swept_are(cols, n - 1);
        let old = swept(cols, n - 1);
        let new = swept(cols, n);
        assert forall|i: int| 0 <= i < n && !not_content(
            (#[trigger] cols[i]).table,
        ) implies new.contains(i) by {
            if i < n - 1 {
                let k = old.index_of(i);
                assert(new[k] == i);
            } else {
                assert(new[old.len() as int] == i);
            }
        }
    }
}

/// A sweep leaves out no column but those of the tables that hold no content, and
/// takes each once, in order.
pub proof fn every_column_is_swept(cols: Seq<ColumnView>)
    ensures
        ({
            let v = swept(cols, cols.len() as int);
            &&& forall|a: int, b: int|
                0 <= a < b < v.len() ==> #[trigger] v[a] < #[trigger] v[b]
            &&& forall|i: int| #[trigger]
                v.contains(i) <==> 0 <= i < cols.len() && cols[i].table != "excision_replay"@
                    && cols[i].table != "vault"@
        }),
{
    let n = cols.len() as int;
    swept_are(cols, n);
    let v = swept(cols, n);
    assert forall|i: int| #[trigger] v.contains(i) <==> 0 <= i < n && cols[i].table
        != "excision_replay"@ && cols[i].table != "vault"@ by {
        if v.contains(i) {
            let k = v.index_of(i);
            assert(v[k] == i);
        } else if 0 <= i < n {
            assert(!not_content(cols[i].table) ==> v.contains(i));
        }
    }
}

/// The parts of a text around the occurrences of another, each up to the first one
/// that follows.
pub open spec fn parts_around(parts: Seq<Seq<char>>, s: Seq<char>, needle: Seq<char>) -> bool {
    &&& parts.len() > 0
    &&& s == joined(parts, needle)
    &&& !occurs(parts.last(), needle)
    &&& forall|i: int|
        0 <= i < parts.len() - 1 ==> !occurs(((#[trigger] parts[i]) + needle).drop_last(), needle)
}

proof fn joined_first(parts: Seq<Seq<char>>, sep: Seq<char>)
    requires
        parts.len() >= 2,
    ensures
        joined(parts, sep) == parts[0] + sep + joined(parts.drop_first(), sep),
    decreases parts.len(),
{
    if parts.len() == 2 {
        assert(parts.drop_last() =~= seq![parts[0]]);
        assert(parts.drop_first() =~= seq![parts[1]]);
        assert(joined(parts.drop_last(), sep) == parts[0]);
        assert(joined(parts.drop_first(), sep) == parts[1]);
    } else {
        joined_first(parts.drop_last(), sep);
        assert(parts.drop_last().drop_first() =~= parts.drop_first().drop_last());
        assert(joined(parts, sep) =~= parts[0] + sep + joined(parts.drop_first(), sep));
    }
}

proof fn concat_first(parts: Seq<Seq<char>>)
    requires
        parts.len() >= 1,
    ensures
        concat(parts) == parts[0] + concat(parts.drop_first()),
    decreases parts.len(),
{
    if parts.len() == 1 {
        assert(parts.drop_last() =~= Seq::empty());
        assert(parts.drop_first() =~= Seq::empty());
        assert(concat(parts) =~= parts[0] + concat(parts.drop_first()));
    } else {
        concat_first(parts.drop_last());
        assert(parts.drop_last().drop_first() =~= parts.drop_first().drop_last());
        assert(concat(parts) =~= parts[0] + concat(parts.drop_first()));
    }
}

proof fn parts_of(s: Seq<char>, needle: Seq<char>) -> (parts: Seq<Seq<char>>)
    requires
        needle.len() > 0,
    ensures
        parts_around(parts, s, needle),
        without(s, needle) == concat(parts),
    decreases s.len(),
{
    let n = needle.len() as int;
    if s.len() < n {
        let parts = seq![s];
        concat_first(parts);
        assert(parts.drop_first() =~= Seq::empty());
        assert(concat(parts) =~= s);
        parts
    } else if s.take(n) == needle {
        let rest = parts_of(s.skip(n), needle);
        let none = Seq::<char>::empty();
        let parts = seq![none] + rest;
        assert(parts.drop_first() =~= rest);
        joined_first(parts, needle);
        concat_first(parts);
        assert(s =~= none + needle + s.skip(n));
        assert(concat(parts) =~= concat(rest));
        assert forall|i: int| 0 <= i < parts.len() - 1 implies !occurs(
            ((#[trigger] parts[i]) + needle).drop_last(),
            needle,
        ) by {
            if i > 0 {
                assert(parts[i] == rest[i - 1]);
            }
        }
        assert(parts.last() == rest.last());
        parts
    } else {
        let rest = parts_of(s.drop_first(), needle);
        let first = seq![s[0]] + rest[0];
        let parts = rest.update(0, first);
        let t = s.drop_first();
        assert(parts.drop_first() =~= rest.drop_first());
        assert(rest =~= seq![rest[0]] + rest.drop_first());
        concat_first(parts);
        concat_first(rest);
        assert(concat(parts) =~= seq![s[0]] + concat(rest));
        if rest.len() >= 2 {
            joined_first(parts, needle);
            joined_first(rest, needle);
            let far = joined(rest.drop_first(), needle);
            assert(t == rest[0] + needle + far);
            assert(s =~= seq![s[0]] + t);
            assert(s =~= first + needle + far);
            let whole = (first + needle).drop_last();
            let inner = (rest[0] + needle).drop_last();
            assert(whole =~= seq![s[0]] + inner);
            if occurs(whole, needle) {
                let i = choose|i: int|
                    0 <= i <= whole.len() - n && #[trigger] whole.subrange(i, i + n) == needle;
                if i == 0 {
                    assert(whole.subrange(0, n) =~= s.take(n));
                } else {
                    assert(inner.subrange(i - 1, i - 1 + n) =~= needle);
                    assert(!occurs((rest[0] + needle).drop_last(), needle));
                }
            }
            assert forall|i: int| 0 <= i < parts.len() - 1 implies !occurs(
                ((#[trigger] parts[i]) + needle).drop_last(),
                needle,
            ) by {
                if i > 0 {
                    assert(parts[i] == rest[i]);
                }
            }
            assert(parts.last() == rest.last());
        } else {
            assert(s =~= first);
            if occurs(first, needle) {
                let i = choose|i: int|
                    0 <= i <= first.len() - n && #[trigger] first.subrange(i, i + n) == needle;
                if i == 0 {
                    assert(first.subrange(0, n) =~= s.take(n));
                } else {
                    assert(rest[0].subrange(i - 1, i - 1 + n) =~= needle);
                }
            }
        }
        parts
    }
}

/// Taking a text out of another leaves what stands around its occurrences, each counted
/// from the end of the one before, and nothing else is lost.
pub proof fn only_the_text_is_taken_out(s: Seq<char>, needle: Seq<char>)
    ensures
        needle.len() == 0 ==> without(s, needle) == s,
        needle.len() > 0 ==> exists|parts: Seq<Seq<char>>| #[trigger]
            parts_around(parts, s, needle) && without(s, needle) == concat(parts),
{
    if needle.len() > 0 {
        let parts = parts_of(s, needle);
        assert(parts_around(parts, s, needle));
    }
}

/// What is searched of a column is its whole value as text: the texts of an array with
/// spaces between them, the bytes of binary data, and the text form of any other value.
/// The statement reads the column's own table, and one vault of it.
pub proof fn a_sweep_reads_its_column(c: ColumnView)
    ensures
        c.ty == "text[]"@ ==> counts_rows(
            sweep_sql(c),
            c.table,
            "array_to_string("@ + c.column + ", ' ')"@,
        ),
        c.ty == "bytea"@ ==> counts_rows(
            sweep_sql(c),
            c.table,
            "encode("@ + c.column + ", 'escape')"@,
        ),
        c.ty != "text[]"@ && c.ty != "bytea"@ ==> counts_rows(
            sweep_sql(c),
            c.table,
            c.column + "::text"@,
        ),
{
    reveal_strlit("text[]");
    reveal_strlit("bytea");
    assert("text[]"@.len() == 6 && "bytea"@.len() == 5);
}

} // verus!
