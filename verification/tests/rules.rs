use pgmind::carry::{carry, carry_note, mints_needed, srcs_of_blocks, CarryInput, CarryState};
use pgmind::document::Block;
use pgmind::errors::{error_detail, error_message, Pm};
use pgmind::excision::{
    column_expr, excise, excision_target, finish_excision, is_not_content, proves_erasure,
    redaction_marker, redaction_statement, remove_text, replay_needle, retain, sweep,
    sweep_statement, verify_excision, ExcisionFault, ExcisionStep, TargetKind, TextColumn,
    VerifyStep,
};
use pgmind::extraction::{insert_key, reconcile_keys, TagKey};
use pgmind::faults::OpFault;
use pgmind::frame::{flatten, group};
use pgmind::golden::{
    decimal_text, extraction_golden, fill, fuzz_document, hash_golden, Field, HashVerdict, Rng,
};
use pgmind::history::{Bind, Effect};
use pgmind::ids::{default_vault, hex, parse_uuid, Uuid};
use pgmind::json::{array_of, get, json_eq, object_of, put, Json};
use pgmind::ops::load_note;
use pgmind::read::{
    check_batch, create_vault, filter_names, like_prefix_pattern, plan_search, preamble,
    read_section, title_of, BatchFault, Markdown, SearchStep, SectionFault, TooLarge, VaultFault,
    VaultStep,
};
use pgmind::rebind::{
    apply_bindings, cells, features, fnv1a, inferred, intersect, joined_features, peers, rebind, residual,
    split_runs, Outcome, Rebound, Residual, Step,
};
use pgmind::record::{lists_json, read_effect, read_lists, record};
use pgmind::rows::{capped, effect_json, move_meta};
use pgmind::script::{apply_texts, diff_texts};
use pgmind::splice::{
    blank_terminated, content_end, decorate, get as cut, line_start_of, move_lines, move_tiles,
    rebuild_body, remark_item, slice_marker, splice_replace, trailing_newlines,
};
use pgmind::store::{
    block_cas_check, cas_check, join_anchor, session_vault, split_anchor, vault_query, VaultQuery,
};
use pgmind::parse;

const NIL: [u8; 16] = [0u8; 16];

fn s(t: &str) -> String {
    t.to_string()
}

fn strs(v: &[&str]) -> Vec<String> {
    v.iter().map(|t| t.to_string()).collect()
}

// ---- ids ----

#[test]
fn accepts_what_postgres_accepts() {
    for s in [
        "00000000-0000-0000-0000-000000000000",
        "00000000000000000000000000000000",
        "{00000000-0000-0000-0000-000000000000}",
        "{00000000000000000000000000000000}",
    ] {
        assert_eq!(parse_uuid(s).map(|u| u.as_bytes()), Some(NIL), "{s:?}");
    }
    assert_eq!(
        parse_uuid("A0EEBC99-9C0B-4EF8-BB6D-6BB9BD380A11").map(|u| u.as_bytes()[0]),
        Some(0xA0)
    );
}

#[test]
fn rejects_what_postgres_rejects() {
    for s in [
        "+0+0+0+0+0+0+0+0+0+0+0+0+0+0+0+0",
        "----00000000000000000000000000000000",
        "0-0000000-00000000000000000000000-0",
        "€€€€€€€€€€ab",
        "aéaéaéaéaéaéaéaéaéaéaéaéaéaéaé00",
        "",
        "0000000000000000000000000000000",
        "000000000000000000000000000000000",
        "0000000g-0000-0000-0000-000000000000",
        "{00000000-0000-0000-0000-000000000000",
        " 00000000-0000-0000-0000-000000000000",
    ] {
        assert!(parse_uuid(s).is_none(), "should reject {s:?}");
    }
}

#[test]
fn uuids_are_spelled_in_lowercase_with_dashes() {
    let u = parse_uuid("A0EEBC99-9C0B-4EF8-BB6D-6BB9BD380A11").unwrap();
    assert_eq!(u.to_text(), "a0eebc99-9c0b-4ef8-bb6d-6bb9bd380a11");
    assert_eq!(Uuid::from_bytes(u.as_bytes()), u);
    assert_eq!(default_vault().value, 0);
    assert_eq!(hex(&[0x0a, 0xff]), "0aff");
    let m = Uuid::mint_from(0x0102_0304_0506, [0xff; 10]);
    assert_eq!(m.to_text(), "01020304-0506-7fff-bfff-ffffffffffff");
}

#[test]
fn malformed_vault_guc_raises_pm001() {
    for bad in
        ["+0+0+0+0+0+0+0+0+0+0+0+0+0+0+0+0", "0-0000000-00000000000000000000000-0", "not-a-uuid"]
    {
        assert!(session_vault(Some(bad)).is_none());
    }
    assert_eq!(session_vault(None), Some(default_vault()));
    let id = parse_uuid("a0eebc99-9c0b-4ef8-bb6d-6bb9bd380a11").unwrap();
    assert!(matches!(vault_query(Some("a0eebc99-9c0b-4ef8-bb6d-6bb9bd380a11")), VaultQuery::ById(u) if u == id));
}

#[test]
fn errors_name_themselves() {
    assert_eq!(Pm::BatchArity.sqlstate(), "PM019");
    assert_eq!(Pm::StaleHead.name(), "pgmind_stale_head");
    assert_eq!(error_message("block not found"), "pgmind: block not found");
    assert_eq!(error_detail(Pm::BlockNotFound, "id 1"), "pgmind_block_not_found — id 1");
}

#[test]
fn compare_and_swap() {
    let (a, b) = (Uuid { value: 1 }, Uuid { value: 2 });
    assert!(cas_check(None, a).is_ok());
    assert!(cas_check(Some(a), a).is_ok());
    let e = cas_check(Some(a), b).unwrap_err();
    assert_eq!((e.expected, e.observed), (a, b));
    assert!(block_cas_check(None, &[1]));
    assert!(block_cas_check(Some(&[1, 2]), &[1, 2]));
    assert!(!block_cas_check(Some(&[1, 2]), &[1, 3]));
}

#[test]
fn anchors_round_trip() {
    assert_eq!(split_anchor(&Some(s("^b1"))), (s(""), s("b1")));
    assert_eq!(split_anchor(&Some(s("Sec"))), (s("Sec"), s("")));
    assert_eq!(split_anchor(&None), (s(""), s("")));
    assert_eq!(join_anchor(None, Some(s("b1"))), Some(s("^b1")));
    assert_eq!(join_anchor(Some(s("Sec")), None), Some(s("Sec")));
}

// ---- scripts, frames, records ----

#[test]
fn a_script_rebuilds_the_older_list() {
    let new = strs(&["a", "B", "c", "d"]);
    let old = strs(&["a", "b", "x", "c", "d"]);
    let sc = diff_texts(&new, &old);
    assert_eq!(sc.ops, vec![0, 0, 1, 1, 2, 0, 2, 2]);
    assert_eq!(sc.payload, strs(&["b", "x"]));
    assert_eq!(apply_texts(&new, &sc.ops, &sc.payload), Some(old));
    assert_eq!(apply_texts(&new, &vec![1, 3], &sc.payload), None);
}

#[test]
fn places_and_heads_read_back() {
    let place = vec![(1, 2, 3), (4, 5, 6)];
    let flat = flatten(&place);
    assert_eq!(flat, vec![1, 2, 3, 4, 5, 6]);
    assert_eq!(group(&flat), place);
    let heads = vec![strs(&["A", "B"]), vec![]];
    assert_eq!(read_lists(&lists_json(&heads)), heads);
    assert!(read_lists(&Json::Null).is_empty());
    assert!(read_lists(&array_of(vec![array_of(vec![Json::Int(1)])])).is_empty());
}

#[test]
fn effects_are_stored_and_read() {
    let id = Uuid { value: 3 };
    let gone = read_effect(id, true, Bind::Carry, Some(s("paragraph")), None, vec![], None, None, None);
    assert!(gone.existed && gone.prev.is_none());
    let e = read_effect(id, true, Bind::Carry, Some(s("paragraph")), Some(s("")), vec![0xab], None, None, None);
    let j = effect_json(&e, 1);
    assert!(json_eq(get(&j, "bind").unwrap(), &Json::Str(s("carry"))));
    assert!(json_eq(get(&j, "prev_content_hash").unwrap(), &Json::Str(s("ab"))));
    assert!(json_eq(get(&j, "prev_attrs").unwrap(), &Json::Null));
    assert!(json_eq(get(&j, "i").unwrap(), &Json::Int(1)));
    assert_eq!(e.prev.unwrap().at.content, "");
    let minted: Effect =
        read_effect(id, false, Bind::Mint, None, None, vec![], None, None, None);
    assert!(minted.prev.is_none());
    assert_eq!(Bind::Remove.name(), "remove");
}

#[test]
fn long_lists_of_ids_are_capped() {
    let ids: Vec<Uuid> = (0..201u128).map(|v| Uuid { value: v }).collect();
    let j = capped(&ids);
    assert!(json_eq(get(&j, "count").unwrap(), &Json::Int(201)));
    assert!(json_eq(get(&j, "truncated").unwrap(), &Json::Bool(true)));
    assert!(matches!(get(&j, "list"), Some(Json::Array(v)) if v.len() == 200));
    assert!(matches!(capped(&vec![ids[0]]), Json::Array(v) if v.len() == 1));
}

#[test]
fn a_record_has_its_effects_in_portions() {
    let effects: Vec<Effect> = (0..2050u128)
        .map(|v| read_effect(Uuid { value: v }, false, Bind::Mint, None, None, vec![], None, None, None))
        .collect();
    let pre = pgmind::history::PreImage {
        prev_path: None,
        prev_preamble: None,
        prev_props: None,
        tiles: diff_texts(&vec![], &vec![]),
        ids: pgmind::script::diff_ids(&vec![], &vec![]),
        place_idx: vec![0],
        place_prev: vec![(1, 2, 3)],
        head_idx: vec![0],
        head_prev: vec![strs(&["H"])],
        effects,
    };
    let r = record(&pre);
    assert_eq!(r.place_prev, vec![1, 2, 3]);
    assert_eq!(read_lists(&r.head_prev), vec![strs(&["H"])]);
    assert_eq!(r.effects.len(), 2);
    assert_eq!(r.effects[1].1.len(), 2);
}

#[test]
fn keys_are_reconciled() {
    let t = |v: Option<u128>, tag: &str| TagKey { block: v.map(|x| Uuid { value: x }), tag: s(tag) };
    let mut want = Vec::new();
    insert_key(&mut want, t(Some(2), "b"));
    insert_key(&mut want, t(None, "z"));
    insert_key(&mut want, t(Some(2), "a"));
    insert_key(&mut want, t(Some(2), "a"));
    assert_eq!(want.len(), 3);
    assert_eq!(want[0].tag, "z");
    assert_eq!(want[1].tag, "a");
    let have = vec![(7, t(Some(2), "a")), (8, t(Some(3), "a"))];
    let (stale, new) = reconcile_keys(&have, &want);
    assert_eq!(stale, vec![8]);
    assert_eq!(new.iter().map(|k| k.tag.as_str()).collect::<Vec<_>>(), vec!["z", "b"]);
}

// ---- splices ----

#[test]
fn lines_and_contents() {
    let src = "ab\ncdé\n\nx";
    assert_eq!(line_start_of(src, 5), Some(3));
    assert_eq!(line_start_of(src, 2), Some(0));
    assert_eq!(line_start_of(src, 6), None);
    assert_eq!(content_end(src, 3, 9), Some(8));
    assert_eq!(content_end(src, 9, 10), Some(10));
    assert_eq!(cut(src, 3, 7), Some("cdé"));
    assert_eq!(cut(src, 7, 3), None);
}

#[test]
fn fragments_are_prefixed() {
    assert_eq!(decorate("a\n\nb\n", "> "), "a\n>\n> b\n");
    assert_eq!(decorate("a\nb", ""), "a\nb");
    assert_eq!(decorate("a\nb", "  "), "a\n  b");
}

#[test]
fn a_splice_keeps_what_is_outside() {
    let src = "one\n> two\nthree\n";
    let sp = splice_replace(src, 4, 10, 2, "TWO\nmore\n", "> ").unwrap();
    assert_eq!(sp.source, "one\n> TWO\n> more\nthree\n");
    assert_eq!(sp.edit, (4, 17));
    assert_eq!(sp.line_start, 4);
    assert!(splice_replace(src, 4, 99, 2, "x", "").is_none());
}

#[test]
fn tiles_are_separated_at_the_seam() {
    assert_eq!(blank_terminated("a"), "a\n\n");
    assert_eq!(blank_terminated("a\n"), "a\n\n");
    assert_eq!(blank_terminated("a\n\n"), "a\n\n");
    assert_eq!(trailing_newlines("a\n\n"), "\n\n");
    let tiles = strs(&["p\n", "h\n", "x", "q\n"]);
    assert_eq!(rebuild_body(&tiles, 2, 3, "\n"), strs(&["p\n", "h\n\n", "x\n\n", "q\n"]));
    assert_eq!(
        move_tiles(&strs(&["a\n\n", "b\n\n", "c\n"]), 2, 0, true, "\n"),
        strs(&["c\n\n", "a\n\n", "b\n"])
    );
}

#[test]
fn lines_are_moved() {
    assert_eq!(move_lines("a\nb\nc\n", 2, 4, 0).as_deref(), Some("b\na\nc\n"));
    assert_eq!(move_lines("a\nb\nc\n", 0, 2, 4).as_deref(), Some("b\na\nc\n"));
    assert_eq!(move_lines("a\n", 0, 9, 0), None);
}

#[test]
fn markers_are_restyled() {
    assert_eq!(slice_marker("> - a", 0, 2, 4), "- ");
    assert_eq!(slice_marker("- a", 0, 2, 1), "");
    assert_eq!(remark_item("* x", 2, "- "), "- x");
    assert_eq!(remark_item("3. x", 3, "1) "), "3) x");
    assert_eq!(remark_item("* x", 2, "1. "), "1. x");
    assert_eq!(remark_item("é", 1, "- "), "é");
}

// ---- reading ----

#[test]
fn read_section_first_match() {
    let src = "# Top\n\nintro\n\n## Sub\n\nsub content\n\n## Sub2\n\nother\n";
    assert_eq!(read_section(src, &strs(&["Top", "Sub"])), Ok("## Sub\n\nsub content\n\n"));
    assert_eq!(read_section(src, &strs(&["Top"])), Ok(src));
    assert_eq!(read_section(src, &strs(&["Nope"])), Err(SectionFault::NotFound));
}

#[test]
fn read_section_ignores_headings_inside_blockquotes() {
    let src = "> # Q\n\npara\n\n# Real\n\nbody\n";
    assert_eq!(read_section(src, &strs(&["Q"])), Err(SectionFault::NotFound));
    assert_eq!(read_section(src, &strs(&["Real"])), Ok("# Real\n\nbody\n"));
}

#[test]
fn notes_glob_matches_literal_stars_and_prefixes() {
    let names = strs(&["glob/a*bc", "glob/plain", "globber/other"]);
    assert_eq!(filter_names("glob/a*c", &names), Some(vec![0]));
    assert_eq!(filter_names("glob/**", &names), Some(vec![0, 1]));
    let deep = format!("{}zzz", "**/".repeat(40));
    assert_eq!(filter_names(&deep, &names), Some(vec![]));
    assert_eq!(filter_names("", &names), None);
    assert_eq!(like_prefix_pattern("a_b%\\c"), "a\\_b\\%\\\\c%");
}

#[test]
fn documents_have_a_size_and_a_preamble() {
    assert_eq!(preamble("---\ntitle: X\n---\n\nbody\n"), "---\ntitle: X\n---\n\n");
    assert_eq!(preamble("body\n"), "");
    assert_eq!(Markdown::input("abc", 3).unwrap().0, "abc");
    assert_eq!(Markdown::input("abcd", 3).unwrap_err(), TooLarge { size: 4, limit: 3 });
    assert_eq!(Markdown::input("a", -1).unwrap_err(), TooLarge { size: 1, limit: 0 });
}

#[test]
fn batches_are_checked() {
    let p = |n: usize| -> Vec<Option<String>> { (0..n).map(|i| Some(i.to_string())).collect() };
    assert_eq!(check_batch(&p(2), &p(2)), None);
    let f = check_batch(&p(1), &p(2)).unwrap();
    assert_eq!(f, BatchFault::Arity { paths: 1, docs: 2 });
    assert_eq!(f.code(), Pm::BatchArity);
    assert_eq!(check_batch(&p(1001), &p(1001)), Some(BatchFault::TooMany { notes: 1001 }));
    assert_eq!(check_batch(&p(1000), &p(1000)), None);
    let mut docs = p(2);
    docs[1] = None;
    assert_eq!(
        check_batch(&p(2), &docs),
        Some(BatchFault::Absent { element: 1, path: false })
    );
    assert_eq!(BatchFault::TooMany { notes: 1 }.message(), "batch is too large");
}

#[test]
fn vaults_are_created_once() {
    let (a, b) = (Uuid { value: 1 }, Uuid { value: 2 });
    assert_eq!(create_vault(" acme ", None, a, None, false), (s("acme"), Ok(VaultStep::Insert(a))));
    assert_eq!(create_vault("x", Some(b), a, None, true).1, Ok(VaultStep::Adopt(b)));
    assert_eq!(create_vault("x", Some(b), a, None, false).1, Err(VaultFault::NameTaken(b)));
    assert_eq!(create_vault("x", None, a, Some("y"), true).1, Err(VaultFault::IdTaken(a)));
    assert_eq!(create_vault("x", None, a, Some("x"), true).1, Ok(VaultStep::Adopt(a)));
    assert_eq!(create_vault("a//b", None, a, None, false).1, Err(VaultFault::InvalidName));
    assert_eq!(VaultFault::IdTaken(a).code(), Pm::PathTaken);
}

#[test]
fn an_empty_search_finds_nothing() {
    assert_eq!(plan_search(false, &None, false, 20), SearchStep::Nothing);
    assert_eq!(plan_search(false, &Some(vec![]), false, 20), SearchStep::Nothing);
    assert_eq!(
        plan_search(false, &Some(strs(&["t"])), false, -5),
        SearchStep::Query { text: false, limit: 0 }
    );
    assert_eq!(
        plan_search(false, &None, true, 20),
        SearchStep::Query { text: false, limit: 20 }
    );
    assert_eq!(plan_search(true, &None, false, 20), SearchStep::Query { text: true, limit: 20 });
}

// ---- erasing ----

fn object(members: &[(&str, &str)]) -> Json {
    let mut j = object_of(vec![]);
    for (k, v) in members {
        put(&mut j, s(k), Json::Str(s(v)));
    }
    j
}

#[test]
fn an_erasure_names_its_target() {
    let j = object(&[("path", "a/b"), ("block_id", "x")]);
    let (k, t) = excision_target(&j).unwrap();
    assert_eq!((k, t.as_str()), (TargetKind::Note, "a/b"));
    assert_eq!(k.name(), "note");
    assert_eq!(replay_needle(&j), "a/b");
    assert!(excision_target(&object(&[("other", "x")])).is_none());
    let lit = object(&[("literal", "s3cret"), ("path", "a")]);
    assert_eq!(excision_target(&lit).unwrap().1, "s3cret");
    assert!(matches!(verify_excision(true, Some(&lit)), VerifyStep::Sweep(t) if t == "s3cret"));
    assert!(matches!(verify_excision(false, Some(&lit)), VerifyStep::Unknown));
    assert!(matches!(verify_excision(true, None), VerifyStep::NoTarget));
    assert!(proves_erasure(5, 0));
    assert!(!proves_erasure(0, 0));
}

#[test]
fn live_content_is_refused() {
    assert_eq!(excise(2, false, false), Err(ExcisionFault::StillLive(2)));
    assert_eq!(excise(2, false, true), Err(ExcisionFault::StillLive(2)));
    assert_eq!(excise(2, true, true), Ok(ExcisionStep::Report));
    assert_eq!(excise(2, true, false), Ok(ExcisionStep::Erase { remove_live: true }));
    assert_eq!(excise(0, false, false), Ok(ExcisionStep::Erase { remove_live: false }));
    assert_eq!(finish_excision(0), Ok(()));
    let f = finish_excision(3).unwrap_err();
    assert_eq!(f, ExcisionFault::Incomplete(3));
    assert_eq!(f.code(), Pm::ExcisionIncomplete);
    assert_eq!(ExcisionFault::NoTarget.code(), Pm::ExcisionRefused);
}

fn column(table: &str, column: &str, ty: &str) -> TextColumn {
    TextColumn { table: s(table), column: s(column), ty: s(ty), generated: false, vault_scoped: true }
}

#[test]
fn columns_are_swept_and_redacted() {
    assert_eq!(column_expr(&column("t", "c", "text[]")), "array_to_string(c, ' ')");
    assert_eq!(column_expr(&column("t", "c", "bytea")), "encode(c, 'escape')");
    assert_eq!(column_expr(&column("t", "c", "jsonb")), "c::text");
    assert_eq!(
        sweep_statement(&column("tile", "raw", "text")).unwrap(),
        "SELECT count(*) FROM pgmind.tile WHERE raw::text IS NOT NULL AND position($1 in raw::text) > 0 AND vault_id = $2"
    );
    assert_eq!(
        redaction_statement(&column("tile", "raw", "text")).unwrap().unwrap(),
        "UPDATE pgmind.tile SET raw = replace(raw, $1, $2) WHERE position($1 in raw) > 0 AND vault_id = $3"
    );
    assert!(redaction_statement(&column("block_revision", "prev_content", "text"))
        .unwrap()
        .unwrap()
        .contains("redacted = true"));
    assert!(redaction_statement(&column("n", "p", "jsonb")).unwrap().unwrap().contains("::jsonb"));
    assert!(redaction_statement(&column("n", "p", "text[]")).unwrap().unwrap().contains("unnest(p)"));
    assert_eq!(redaction_statement(&column("n", "h", "bytea")), Ok(None));
    assert_eq!(redaction_statement(&column("vault", "name", "text")), Ok(None));
    let mut g = column("note", "basename", "text");
    g.generated = true;
    assert_eq!(redaction_statement(&g), Ok(None));
    let mut stray = column("stray", "c", "text");
    stray.vault_scoped = false;
    assert_eq!(redaction_statement(&stray), Err(()));
    assert!(is_not_content("excision_replay"));
    let mut vault = column("vault", "name", "text");
    vault.vault_scoped = false;
    let ok = sweep(&vec![vault, column("tile", "raw", "text")]).unwrap();
    assert_eq!(ok.len(), 1);
    assert_eq!(ok[0].0, 1);
    assert_eq!(sweep(&vec![column("tile", "raw", "text"), stray]), Err(1));
    assert_eq!(
        redaction_marker(Uuid { value: 0 }),
        "⟨redacted pgmind:00000000-0000-0000-0000-000000000000⟩"
    );
    assert_eq!(remove_text("aXbXXc", "X"), "abc");
    assert_eq!(remove_text("abc", ""), "abc");
    assert_eq!(remove_text("aabb", "ab"), "ab");
}

#[test]
fn retention_raises_the_floor() {
    assert_eq!(retain(10, 0, Some(3)), Some(8));
    assert_eq!(retain(10, 9, Some(3)), None);
    assert_eq!(retain(10, 0, Some(0)), Some(10));
    assert_eq!(retain(10, 0, None), None);
    assert_eq!(retain(10, 0, Some(11)), None);
}

// ---- rebinding ----

#[test]
fn features_are_words_and_pairs() {
    assert_eq!(fnv1a(""), 0xcbf2_9ce4_8422_2325);
    assert_eq!(fnv1a("a"), 0xaf63_dc4c_8601_ec8c);
    let f = features("Alpha beta");
    assert_eq!(f.len(), 3);
    assert!(f.windows(2).all(|w| w[0] <= w[1]));
    assert!(f.contains(&fnv1a("alpha")) && f.contains(&fnv1a("beta")));
    assert_ne!(features("beta alpha"), f);
    assert!(features("---").is_empty());
    assert_eq!(intersect(&features("a b"), &features("a b")), 3);
    assert_eq!(intersect(&vec![1, 1, 2], &vec![1, 1, 1, 3]), 2);
    assert_eq!(joined_features(&vec![vec![3, 5], vec![1]]), vec![1, 3, 5]);
}

#[test]
fn runs_of_two_to_four() {
    assert_eq!(split_runs(1), vec![]);
    assert_eq!(split_runs(3), vec![(0, 2), (0, 3), (1, 3)]);
    assert_eq!(split_runs(6).len(), 3 + 3 + 3 + 2 + 1);
}

fn blocks(src: &str) -> Vec<Block> {
    parse(src).blocks
}

#[test]
fn bindings_never_cross_and_are_applied() {
    let old = blocks("one\n\ntwo\n\nthree\n");
    let new = blocks("ONE\n\n# h\n\nTHREE\n");
    let (o, n) = (srcs_of_blocks(&old), srcs_of_blocks(&new));
    let ids: Vec<Uuid> = (1..4u128).map(|v| Uuid { value: v }).collect();
    let input = CarryInput { old: &o, new: &n, old_ids: &ids };
    let mut state = CarryState::new(3, 3);
    let r = residual(&state);
    assert_eq!(r.old_idxs, vec![0, 1, 2]);
    assert_eq!(cells(&r), 9);
    assert_eq!(peers(&input, 0, &r.new_idxs), vec![0, 2]);
    let steps = vec![
        Step::Take { score: 7 }, Step::SkipNew, Step::SkipNew,
        Step::SkipOld, Step::SkipOld, Step::SkipOld,
        Step::SkipNew, Step::SkipNew, Step::Take { score: 9 },
    ];
    let v = match rebind(&r, &steps) {
        Outcome::Ran(v) => v,
        other => panic!("{other:?}"),
    };
    assert_eq!(
        v,
        vec![
            Rebound { new_idx: 0, old_idx: 0, score: 7 },
            Rebound { new_idx: 2, old_idx: 2, score: 9 },
        ]
    );
    apply_bindings(&input, &mut state, &v);
    assert_eq!(state.assign, vec![Some(ids[0]), None, Some(ids[2])]);
    assert_eq!(mints_needed(&state), 1);
    apply_bindings(&input, &mut state, &vec![Rebound { new_idx: 0, old_idx: 1, score: 1 }]);
    assert_eq!(state.assign[0], Some(ids[0]));
    let now = vec![ids[0], Uuid { value: 8 }, Uuid { value: 9 }];
    assert_eq!(inferred(&v, &now, &ids), vec![(ids[0], 7)]);
}

#[test]
fn a_large_residual_is_over_budget() {
    let r = Residual { old_idxs: (0..201).collect(), new_idxs: (0..200).collect() };
    assert!(matches!(rebind(&r, &vec![]), Outcome::OverBudget { cells: 40_200 }));
}

#[test]
fn a_carry_tells_what_it_did() {
    let c = carry(&vec![], &blocks("a\n\nb\n"), &vec![Uuid { value: 5 }, Uuid { value: 6 }]);
    assert_eq!(c.ids, vec![Uuid { value: 5 }, Uuid { value: 6 }]);
    assert_eq!(c.minted.len(), 2);
    assert_eq!((c.carried_ref, c.carried_hash), (0, 0));
    assert!(c.removed.is_empty());
    let st = carry_note(&vec![], &blocks("a\n"));
    assert_eq!(st.assign, vec![None]);
}

// ---- gates ----

#[test]
fn hashes_are_compared() {
    let eq = |a: &str, b: &str, e: &str| hash_golden(a, b, 0, 0, Some(e));
    assert_eq!(eq("a\n", "a\n\n\n", "equal"), HashVerdict::Pass);
    assert_eq!(eq("a\n", "b\n", "equal"), HashVerdict::Mismatch);
    assert_eq!(eq("a\n", "# a\n", "different"), HashVerdict::Pass);
    assert_eq!(eq("a\n", "a\n", "same"), HashVerdict::InvalidExpect);
    assert_eq!(
        hash_golden("", "a\n", 0, 0, None),
        HashVerdict::OutOfRange { blocks_a: 0, blocks_b: 1 }
    );
}

#[test]
fn extraction_is_compared() {
    let doc = parse("# H\n\nsee [[a#b|c]] #t ^x\n");
    let link = object(&[("kind", "wikilink"), ("target", "a"), ("anchor", "b"), ("alias", "c")]);
    let mut case = object_of(vec![]);
    put(&mut case, s("links"), array_of(vec![link]));
    put(&mut case, s("kinds"), array_of(vec![Json::Str(s("heading")), Json::Str(s("paragraph"))]));
    put(&mut case, s("block_ref_ids"), array_of(vec![Json::Str(s("x"))]));
    put(&mut case, s("heading_paths"), lists_json(&vec![vec![], strs(&["H"])]));
    put(&mut case, s("properties"), object_of(vec![]));
    let (wrong, asserted) = extraction_golden(&case, &doc);
    assert!(asserted);
    assert_eq!(wrong, vec![]);
    put(&mut case, s("tags"), array_of(vec![]));
    assert_eq!(extraction_golden(&case, &doc).0, vec![Field::Tags]);
    let (none, said) = extraction_golden(&object_of(vec![]), &doc);
    assert!(none.is_empty() && !said);
}

#[test]
fn random_documents_tile() {
    assert_eq!(decimal_text(0), "0");
    assert_eq!(decimal_text(1207), "1207");
    assert_eq!(fill("a {n} {{n}} {n", "7"), "a 7 {7} {n");
    let mut rng = Rng::new(0xC0FFEE);
    assert_eq!(rng.state, 0xC0FFEF);
    for i in 0..200 {
        let doc = fuzz_document(&mut rng, i);
        assert!(parse(&doc).tiles_exactly(&doc));
    }
}

#[test]
fn a_title_is_declared_or_a_first_level_heading() {
    let declared = parse("---\ntitle: Auth\n---\n# Other\n");
    assert_eq!(title_of(&declared), Some("Auth".to_string()));
    let headed = parse("## Sub\n\n> # Quoted\n\n# Real *one*\n\n# Second\n");
    assert_eq!(title_of(&headed), Some("Real one".to_string()));
    assert_eq!(title_of(&parse("---\ntitle: [a]\n---\ntext\n")), None);
    assert_eq!(title_of(&parse("")), None);
}

#[test]
fn a_stored_note_must_agree_with_its_parse() {
    let tiles = vec!["alpha\n".to_string()];
    assert!(matches!(load_note("", &tiles, &Vec::new()), Err(OpFault::Unsliceable)));
    let empty = load_note("---\na: 1\n---\n", &Vec::new(), &Vec::new());
    assert!(matches!(empty, Ok(p) if p.doc.preamble.end == 13 && p.tiles.is_empty()));
}

#[test]
fn a_rename_records_both_paths() {
    let meta = move_meta("a/b", "c");
    let names = get(&meta, "move").unwrap();
    assert!(json_eq(get(names, "from").unwrap(), &Json::Str(s("a/b"))));
    assert!(json_eq(get(names, "to").unwrap(), &Json::Str(s("c"))));
}
