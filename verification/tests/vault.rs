use pgmind::commit::{commit_op, NoteCtx, OpPlan};
use pgmind::errors::Pm;
use pgmind::extraction::{edge_rows, edge_targets, EdgeKey, Keyed, TagKey};
use pgmind::faults::{Op, OpFault};
use pgmind::frame::{frame_state, maybe_frame};
use pgmind::history::{PreImage, StoredNote};
use pgmind::ids::Uuid;
use pgmind::json::{get, json_copy, json_eq, Json};
use pgmind::lifecycle::{delete_note, move_note, undelete_note, LifecycleFault};
use pgmind::note::{parse_note, ParsedNote};
use pgmind::ops::{
    block_home, insert_blocks, merge_blocks, move_block, split_block, target_index, update_block,
};
use pgmind::read::block_spans;
use pgmind::reconcile::copy_row;
use pgmind::state::{current_state, StateAt};
use pgmind::store::{
    repair_targets, resolve_target, targets_to_locate, targets_to_name, BlockRow, Resolution,
};
use pgmind::timetravel::{
    blocks_rows, diff, resolve_at, rewind, state_at, At, AtFault, ChangeKind, Revision, RevisionRow,
};
use pgmind::verify::{verify_note, BlockFault, EdgeFact, NoteFacts};
use pgmind::write::{begin_write, note_path, write_note, LanePlan, WriteFault, WriteStep};
use pgmind::audit::{check_state, probes, verify_history, HistoryCounts, HistoryFault};

/// A note as a store would hold it, with its history.
struct Note {
    path: String,
    preamble: String,
    props: Json,
    tiles: Vec<String>,
    rows: Vec<BlockRow>,
    edges: Vec<(i64, EdgeKey)>,
    tags: Vec<(i64, TagKey)>,
    head: Uuid,
    seq: i64,
    /// Newest first.
    revisions: Vec<Revision>,
    sources: Vec<String>,
    ids: u128,
}

/// What an operation gives back.
struct Done {
    block_ids: Vec<Uuid>,
    meta: Json,
}

fn empty_object() -> Json {
    Json::Object(Vec::new())
}

impl Note {
    fn create(path: &str, source: &str) -> Note {
        let mut n = Note {
            path: path.to_string(),
            preamble: String::new(),
            props: empty_object(),
            tiles: Vec::new(),
            rows: Vec::new(),
            edges: Vec::new(),
            tags: Vec::new(),
            head: Uuid { value: 1 },
            seq: -1,
            revisions: Vec::new(),
            sources: Vec::new(),
            ids: 1000,
        };
        n.put(source);
        n
    }

    fn fresh(&mut self, n: usize) -> Vec<Uuid> {
        let mut out = Vec::new();
        for _ in 0..n {
            self.ids += 1;
            out.push(Uuid { value: self.ids });
        }
        out
    }

    fn source(&self) -> String {
        let mut s = self.preamble.clone();
        for t in &self.tiles {
            s.push_str(t);
        }
        s
    }

    fn parsed(&self) -> ParsedNote {
        parse_note(&self.source()).unwrap()
    }

    /// Performs a plan, statement by statement.
    fn apply(&mut self, plan: &LanePlan) {
        if let Some((preamble, props)) = &plan.note {
            self.preamble = preamble.clone();
            self.props = json_copy(props);
        }
        for (ord, raw) in &plan.tiles.updates {
            self.tiles[*ord as usize] = raw.clone();
        }
        for (ord, raw) in &plan.tiles.inserts {
            assert_eq!(*ord as usize, self.tiles.len());
            self.tiles.push(raw.clone());
        }
        if let Some(n) = plan.tiles.delete_from {
            self.tiles.truncate(n as usize);
        }
        for r in &plan.blocks.inserts {
            assert!(self.rows.iter().all(|o| o.id != r.id));
            if let Some(p) = r.parent_block {
                assert!(self.rows.iter().any(|o| o.id == p), "a parent comes first");
            }
            self.rows.push(copy_row(r));
        }
        for r in &plan.blocks.updates {
            let k = self.rows.iter().position(|o| o.id == r.id).unwrap();
            self.rows[k] = copy_row(r);
        }
        self.rows.retain(|r| !plan.blocks.deletes.contains(&r.id));
        self.rows.sort_by_key(|r| r.ord);
        self.edges.retain(|(id, _)| !plan.extraction.stale_edges.contains(id));
        for e in &plan.extraction.new_edges {
            let id = 1 + self.edges.iter().map(|(i, _)| *i).max().unwrap_or(0);
            self.edges.push((id, e.copy()));
        }
        self.tags.retain(|(id, _)| !plan.extraction.stale_tags.contains(id));
        for t in &plan.extraction.new_tags {
            let id = 1 + self.tags.iter().map(|(i, _)| *i).max().unwrap_or(0);
            self.tags.push((id, t.copy()));
        }
    }

    fn revise(&mut self, pre: PreImage) {
        self.seq += 1;
        self.head = self.fresh(1)[0];
        self.revisions.insert(0, Revision { seq: self.seq, pre });
        self.sources.push(self.source());
    }

    /// Writes a whole note; false if there was nothing to write.
    fn put(&mut self, source: &str) -> bool {
        let existed = self.seq >= 0;
        let step = if existed {
            begin_write(Some((self.head, self.preamble.as_str(), &self.tiles)), source, None)
        } else {
            begin_write(None, source, None)
        };
        match step.unwrap() {
            WriteStep::Unchanged(head) => {
                assert_eq!(head, self.head);
                return false;
            }
            WriteStep::Update => assert!(existed),
            WriteStep::Create => assert!(!existed),
        }
        let note = parse_note(source).unwrap();
        let fresh = self.fresh(note.doc.blocks.len());
        let w = {
            let old = StoredNote {
                path: &self.path,
                preamble: &self.preamble,
                props: &self.props,
                tiles: &self.tiles,
                rows: &self.rows,
            };
            write_note(
                &old, existed, &note, &self.path, &self.edges, &self.tags, &Vec::new(), &fresh,
            )
        };
        self.apply(&w.plan);
        assert_eq!(self.rows.len(), w.rows.len());
        self.revise(w.pre);
        assert_eq!(self.source(), source);
        self.check();
        true
    }

    fn ctx<'a>(&'a self, parsed: &'a ParsedNote) -> NoteCtx<'a> {
        NoteCtx {
            path: &self.path,
            preamble: &self.preamble,
            props: &self.props,
            tiles: &self.tiles,
            rows: &self.rows,
            parsed,
            edges: &self.edges,
            tags: &self.tags,
        }
    }

    fn run<F: Fn(&NoteCtx) -> Result<OpPlan, OpFault>>(&mut self, f: F) -> Result<Done, OpFault> {
        let parsed = self.parsed();
        let plan = f(&self.ctx(&parsed))?;
        let fresh = self.fresh(plan.probe.doc.blocks.len());
        let w = commit_op(&self.ctx(&parsed), &plan, &fresh)?;
        self.apply(&w.plan);
        self.revise(w.pre);
        self.check();
        Ok(Done { block_ids: w.block_ids, meta: w.meta })
    }

    fn update(&mut self, idx: usize, text: &str) -> Result<Done, OpFault> {
        self.run(|c| update_block(c, idx, text))
    }

    fn split(&mut self, idx: usize, text: &str) -> Result<Done, OpFault> {
        self.run(|c| split_block(c, idx, text))
    }

    fn merge(&mut self, ids: &Vec<Uuid>, text: &str, keep: Option<Uuid>) -> Result<Done, OpFault> {
        self.run(|c| merge_blocks(c, ids, text, keep))
    }

    fn mv(&mut self, idx: usize, before: Option<Uuid>, after: Option<Uuid>) -> Result<Done, OpFault> {
        self.run(|c| move_block(c, idx, before, after))
    }

    fn insert(&mut self, text: &str, before: Option<Uuid>, after: Option<Uuid>) -> Result<Done, OpFault> {
        self.run(|c| insert_blocks(c, text, before, after))
    }

    fn id(&self, i: usize) -> Uuid {
        self.rows[i].id
    }

    fn find(&self, content: &str) -> usize {
        self.rows.iter().position(|r| r.content == content).unwrap()
    }

    fn state(&self) -> StateAt {
        current_state(&self.path, &self.preamble, &self.props, &self.tiles, &self.rows)
    }

    fn as_of(&self, seq: i64) -> StateAt {
        state_at(seq, self.seq, None, self.state(), &self.revisions).unwrap()
    }

    /// The lanes mirror the parse, and every revision reads back.
    fn check(&self) {
        let parsed = self.parsed();
        let none: Vec<(String, Uuid)> = Vec::new();
        let names: Vec<(String, Uuid, i64)> = Vec::new();
        let edges: Vec<EdgeFact> = self
            .edges
            .iter()
            .map(|(_, k)| {
                let r = resolve_target(&k.dst_path, None, &Vec::new());
                EdgeFact {
                    src_block: k.src_block,
                    kind: k.kind.clone(),
                    dst_path: k.dst_path.clone(),
                    dst_heading: k.dst_heading.clone(),
                    dst_block_ref: k.dst_block_ref.clone(),
                    alias: k.alias.clone(),
                    dst_note: r.dst_note(),
                    resolved_via: r.via().map(|s| s.to_string()),
                    dangling_reason: r.reason().map(|s| s.to_string()),
                }
            })
            .collect();
        let tags: Vec<TagKey> = self.tags.iter().map(|(_, t)| t.copy()).collect();
        let report = verify_note(
            &NoteFacts {
                head_is_own: Some(true),
                preamble: &self.preamble,
                tiles: &self.tiles,
                rows: &self.rows,
                edges: &edges,
                tags: &tags,
                exact: &none,
                names: &names,
            },
            &parsed,
        );
        assert!(report.clean(), "{report:?}");
        for (seq, want) in self.sources.iter().enumerate() {
            let s = self.as_of(seq as i64);
            assert_eq!(&s.source(), want);
            assert!(check_state(seq as i64, &s).is_empty());
        }
    }
}

fn text<'a>(j: &'a Json, key: &str) -> &'a str {
    match get(j, key) {
        Some(Json::Str(t)) => t,
        other => panic!("{key}: {other:?}"),
    }
}

fn items<'a>(j: &'a Json, key: &str) -> &'a Vec<Json> {
    match get(j, key) {
        Some(Json::Array(v)) => v,
        other => panic!("{key}: {other:?}"),
    }
}

fn fault(r: Result<Done, OpFault>) -> OpFault {
    match r {
        Ok(_) => panic!("not refused"),
        Err(f) => f,
    }
}

// ---- writing ----

#[test]
fn write_read_byte_faithful() {
    let md = "---\ntitle: X\n---\n\n# A\n\npara with [[link]] and #tag\n\n- item one\n- item two ^anchor\n\n> quoted\n";
    let n = Note::create("notes/roundtrip", md);
    assert_eq!(n.source(), md);
    assert_eq!(text(&n.props, "title"), "X");
}

#[test]
fn idempotent_write_returns_head_no_new_revision() {
    let mut n = Note::create("idem", "# T\n\nbody\n");
    let ids: Vec<Uuid> = n.rows.iter().map(|r| r.id).collect();
    assert!(!n.put("# T\n\nbody\n"));
    assert_eq!(n.seq, 0);
    assert_eq!(ids, n.rows.iter().map(|r| r.id).collect::<Vec<_>>());
}

#[test]
fn a_stale_write_is_refused() {
    let tiles = vec!["body\n".to_string()];
    let (old, new) = (Uuid { value: 1 }, Uuid { value: 2 });
    let r = begin_write(Some((new, "", &tiles)), "other\n", Some(old));
    match r {
        Err(f) => {
            assert_eq!(f.code(), Pm::StaleHead);
            assert_eq!(f.message(), "expected_head is not the note's current head");
            assert!(matches!(f, WriteFault::Stale(s) if s.expected == old && s.observed == new));
        }
        Ok(_) => panic!("not refused"),
    }
    assert_eq!(begin_write(Some((new, "", &tiles)), "other\n", Some(new)), Ok(WriteStep::Update));
    assert_eq!(
        begin_write(Some((new, "", &tiles)), "body\n", Some(new)),
        Ok(WriteStep::Unchanged(new))
    );
    assert_eq!(begin_write(None, "x", None), Ok(WriteStep::Create));
}

#[test]
fn note_paths_are_normalized_and_checked() {
    assert_eq!(note_path("notes/cafe\u{0301} ").unwrap(), "notes/caf\u{00e9}");
    let f = note_path("bad//path").unwrap_err();
    assert_eq!(f.code(), Pm::InvalidPath);
    assert_eq!(f.message(), "invalid note path");
}

#[test]
fn edited_paragraph_mints_untouched_carry() {
    let mut n = Note::create("carry", "# H\n\nalpha\n\nbeta\n");
    let before: Vec<Uuid> = n.rows.iter().map(|r| r.id).collect();
    n.put("# H\n\nalpha CHANGED\n\nbeta\n");
    assert_eq!(before[0], n.id(0));
    assert_eq!(before[2], n.id(2));
    assert_ne!(before[1], n.id(1));
}

#[test]
fn pure_reorder_carries_all() {
    let mut n = Note::create("reorder", "alpha\n\nbeta\n\ngamma\n");
    let before: Vec<(String, Uuid)> = n.rows.iter().map(|r| (r.content.clone(), r.id)).collect();
    n.put("gamma\n\nalpha\n\nbeta\n");
    for (content, id) in before {
        assert_eq!(n.id(n.find(&content)), id);
    }
}

#[test]
fn duplicate_content_pairs_kth_to_kth() {
    let mut n = Note::create("dups", "same\n\nsame\n\nother\n");
    let first = n.id(0);
    assert_ne!(n.id(0), n.id(1));
    n.put("same\n\nother\n");
    assert_eq!(n.id(0), first);
}

#[test]
fn ref_claim_beats_hash_and_collisions_resolve() {
    let mut n = Note::create("claims", "one ^a\n\ntwo\n");
    let before: Vec<Uuid> = n.rows.iter().map(|r| r.id).collect();
    n.put("totally new ^a\n\ntwo\n");
    assert_eq!(n.id(0), before[0]);
    assert_eq!(n.id(1), before[1]);
}

#[test]
fn kind_change_via_claim() {
    let mut n = Note::create("kindclaim", "plain para ^k\n");
    let id = n.id(0);
    n.put("# now a heading ^k\n");
    assert_eq!(n.id(0), id);
}

#[test]
fn churn_discipline_one_paragraph_edit() {
    let n = Note::create("churn", "# H\n\nalpha\n\nbeta\n\ngamma\n");
    let note = parse_note("# H\n\nalpha\n\nbeta EDITED\n\ngamma\n").unwrap();
    let fresh: Vec<Uuid> = (0..8u128).map(|v| Uuid { value: 90_000 + v }).collect();
    let old = StoredNote {
        path: &n.path,
        preamble: &n.preamble,
        props: &n.props,
        tiles: &n.tiles,
        rows: &n.rows,
    };
    let w = write_note(&old, true, &note, "churn", &n.edges, &n.tags, &Vec::new(), &fresh);
    assert!(w.plan.note.is_none());
    assert_eq!(w.plan.tiles.updates, vec![(2, "beta EDITED\n\n".to_string())]);
    assert!(w.plan.tiles.inserts.is_empty());
    assert_eq!(w.plan.tiles.delete_from, None);
    assert_eq!(w.plan.blocks.inserts.len(), 1);
    assert!(w.plan.blocks.updates.is_empty());
    assert_eq!(w.plan.blocks.deletes, vec![n.id(2)]);
    assert_eq!(text(&w.meta, "op"), "write");
    assert_eq!(items(&w.meta, "minted").len(), 1);
    assert!(json_eq(
        get(get(&w.meta, "carried").unwrap(), "hash").unwrap(),
        &Json::Int(3)
    ));
}

#[test]
fn child_carried_while_parent_removed() {
    let mut n = Note::create("ops/delist", "- hello\n");
    let para = n.id(1);
    n.put("hello\n");
    assert_eq!(n.rows.len(), 1);
    assert_eq!(n.id(0), para);
}

#[test]
fn section_delete_does_not_recycle_ids_across_sections() {
    let mut n = Note::create("carry/sections", "# Chapter A\n\nTODO\n\n# Chapter B\n\nTODO\n");
    let todo_b = n.id(3);
    n.put("# Chapter B\n\nTODO\n");
    assert_eq!(n.id(n.find("TODO")), todo_b);
}

#[test]
fn heading_rename_carries_section_blocks() {
    let mut n = Note::create("carry/rename", "# Old Name\n\nbody text\n");
    let body = n.id(1);
    n.put("# New Name\n\nbody text\n");
    assert_eq!(n.id(n.find("body text")), body);
}

#[test]
fn lane_batching_survives_chunk_boundaries() {
    assert_eq!(pgmind::rows::chunks(0), vec![]);
    assert_eq!(pgmind::rows::chunks(2048), vec![(0, 2048)]);
    assert_eq!(
        pgmind::rows::chunks(6001),
        vec![(0, 2048), (2048, 4096), (4096, 6001)]
    );
}

#[test]
fn extraction_dedups_and_covers_all_link_kinds() {
    let n = Note::create(
        "extract/kinds",
        "See [[extract/target]] and [[extract/target]] again.\n\nEmbed ![[extract/target]] plus [md](extract/target) and [[extract/target#^b1]].\n",
    );
    let mut kinds: Vec<&str> = n.edges.iter().map(|(_, e)| e.kind.as_str()).collect();
    kinds.sort();
    assert_eq!(kinds, vec!["blockref", "mdlink", "transclusion", "wikilink"]);
    let blockref = n.edges.iter().find(|(_, e)| e.kind == "blockref").unwrap();
    assert_eq!(blockref.1.dst_block_ref, "b1");
    assert_eq!(blockref.1.dst_heading, "");
}

#[test]
fn invalid_link_targets_are_reported_as_invalid() {
    let n = Note::create("extract/invalid", "bad [[a//b]] and missing [[nowhere]]\n");
    let keys: Vec<EdgeKey> = n.edges.iter().map(|(_, e)| e.copy()).collect();
    assert_eq!(edge_targets(&keys), vec!["a//b".to_string(), "nowhere".to_string()]);
    let rows = edge_rows(&keys, &Vec::new(), &Vec::new());
    let got: Vec<(&str, Option<&str>)> =
        rows.iter().map(|r| (r.dst_path.as_str(), r.resolution.reason())).collect();
    assert_eq!(got, vec![("a//b", Some("invalid")), ("nowhere", Some("missing"))]);
    assert_eq!(rows[0].alias, None);
}

#[test]
fn resolution_lifecycle_missing_then_resolved() {
    let (a, b, c) = (Uuid { value: 1 }, Uuid { value: 2 }, Uuid { value: 3 });
    assert_eq!(resolve_target("target-note", None, &vec![]), Resolution::Missing);
    assert_eq!(resolve_target("target-note", None, &vec![a]), Resolution::Basename(a));
    assert_eq!(resolve_target("target-note", None, &vec![a, b]), Resolution::Ambiguous);
    assert_eq!(resolve_target("target-note", Some(c), &vec![a, b]), Resolution::Exact(c));
    assert_eq!(Resolution::Exact(c).via(), Some("exact"));
    assert_eq!(Resolution::Basename(a).dst_note(), Some(a));
    assert_eq!(
        repair_targets("dir/target-note"),
        vec!["dir/target-note".to_string(), "target-note".to_string()]
    );
    let targets = vec!["x/y".to_string(), "a//b".to_string(), "z".to_string()];
    assert_eq!(targets_to_locate(&targets), vec!["x/y".to_string(), "z".to_string()]);
    assert_eq!(targets_to_name(&targets, &vec![]), vec!["z".to_string()]);
}

#[test]
fn spans_are_absolute_in_the_source() {
    let n = Note::create("spans", "---\na: 1\n---\n\nalpha\n\n- beta\n");
    let spans = block_spans(&n.preamble, &n.tiles, &n.rows).unwrap();
    let src = n.source();
    assert_eq!(&src[spans[0].0 as usize..spans[0].1 as usize], "alpha\n\n");
    assert_eq!(&src[spans[1].0 as usize..spans[1].1 as usize], "- beta\n");
    let mut bad = Vec::new();
    let mut r = copy_row(&n.rows[0]);
    r.tile_ord = 9;
    bad.push(r);
    assert_eq!(block_spans(&n.preamble, &n.tiles, &bad), Err(0));
}

// ---- block operations ----

#[test]
fn update_block_keeps_id_changes_hash() {
    let mut n = Note::create("ops/upd", "alpha\n\nbeta\n");
    let (a, b) = (n.id(0), n.id(1));
    let hash = n.rows[0].content_hash.clone();
    let w = n.update(0, "alpha NEW").unwrap();
    assert_eq!(w.block_ids, vec![a]);
    assert_eq!(n.id(0), a);
    assert_eq!(n.id(1), b);
    assert_ne!(n.rows[0].content_hash, hash);
    assert_eq!(n.source(), "alpha NEW\n\nbeta\n");
    assert_eq!(text(&w.meta, "target"), a.to_text());
    assert_eq!(text(&w.meta, "op"), "update");
}

#[test]
fn update_item_checkbox_toggle() {
    let mut n = Note::create("ops/task", "- [ ] todo one\n- [ ] todo two\n");
    let item = n.id(0);
    n.update(0, "- [x] todo one").unwrap();
    assert_eq!(n.source(), "- [x] todo one\n- [ ] todo two\n");
    assert_eq!(n.id(0), item);
}

#[test]
fn update_inner_paragraph_directly() {
    let mut n = Note::create("ops/inner", "- hello world\n");
    let (item, para) = (n.id(0), n.id(1));
    let hash = n.rows[0].content_hash.clone();
    n.update(1, "goodbye world").unwrap();
    assert_eq!((n.id(0), n.id(1)), (item, para));
    assert_ne!(n.rows[0].content_hash, hash);
    assert_eq!(n.source(), "- goodbye world\n");
}

#[test]
fn move_block_separator_synthesis() {
    let mut n = Note::create("ops/move", "alpha\n\nbeta\n\ngamma\n");
    let (alpha, gamma) = (n.id(0), n.id(2));
    n.mv(2, Some(alpha), None).unwrap();
    assert_eq!(n.source(), "gamma\n\nalpha\n\nbeta\n");
    assert_eq!((n.id(0), n.id(1)), (gamma, alpha));
}

#[test]
fn move_last_block_earlier_and_back() {
    let mut n = Note::create("ops/move2", "alpha\n\nbeta\n");
    let beta = n.id(1);
    n.mv(0, None, Some(beta)).unwrap();
    assert_eq!(n.source(), "beta\n\nalpha\n");
}

#[test]
fn move_an_item_in_its_list() {
    let mut n = Note::create("ops/items", "- a\n- b\n  - b1\n- c\n");
    let ids: Vec<Uuid> = n.rows.iter().map(|r| r.id).collect();
    let (a, b) = (ids[0], ids[2]);
    n.mv(2, Some(a), None).unwrap();
    assert_eq!(n.source(), "- b\n  - b1\n- a\n- c\n");
    assert_eq!(n.id(0), b);
    let mut after: Vec<Uuid> = n.rows.iter().map(|r| r.id).collect();
    let mut before = ids.clone();
    after.sort_by_key(|u| u.value);
    before.sort_by_key(|u| u.value);
    assert_eq!(before, after);
}

#[test]
fn move_across_sections_keeps_id_changes_heading_path() {
    let mut n = Note::create("move/sections", "# A\n\nalpha\n\n# B\n\nbeta\n");
    let (alpha, beta) = (n.id(1), n.id(3));
    let w = n.mv(1, None, Some(beta)).unwrap();
    assert_eq!(w.block_ids, vec![alpha]);
    let k = n.find("alpha");
    assert_eq!(n.id(k), alpha);
    assert_eq!(n.rows[k].heading_path, vec!["B".to_string()]);
}

#[test]
fn insert_blocks_at_end_and_anchored() {
    let mut n = Note::create("ops/ins", "alpha\n");
    let w = n.insert("beta\n\ngamma", None, None).unwrap();
    assert_eq!(w.block_ids.len(), 2);
    assert_eq!(n.source(), "alpha\n\nbeta\n\ngamma\n");
    let first = n.id(0);
    n.insert("zeta", Some(first), None).unwrap();
    assert_eq!(n.source(), "zeta\n\nalpha\n\nbeta\n\ngamma\n");
}

#[test]
fn insert_preserves_unseparated_neighbouring_tiles() {
    let mut n = Note::create("splice/tiles", "para\n# Heading\n");
    n.insert("x", None, None).unwrap();
    assert_eq!(n.source(), "para\n# Heading\n\nx\n");
}

#[test]
fn insert_item_level_into_a_quoted_list() {
    let mut n = Note::create("splice/quoted-list", "> - alpha\n> - beta\n");
    let alpha = n.id(0);
    n.insert("* gamma", None, Some(alpha)).unwrap();
    assert_eq!(n.source(), "> - alpha\n> - gamma\n> - beta\n");
}

#[test]
fn inserted_items_take_on_the_style_of_the_list() {
    let mut n = Note::create("splice/ordered", "1) one\n2) two\n");
    let two = n.rows.iter().position(|r| r.content.starts_with("two")).unwrap();
    let id = n.id(two);
    n.insert("7. seven", Some(id), None).unwrap();
    assert_eq!(n.source(), "1) one\n7) seven\n2) two\n");
}

#[test]
fn block_ops_keep_the_note_row_consistent() {
    let mut n = Note::create("splice/preamble", "---\ntitle: T\n---\n\nalpha\n");
    n.insert("beta", None, None).unwrap();
    assert_eq!(n.source(), "---\ntitle: T\n---\n\nalpha\n\nbeta\n");
    assert_eq!(text(&n.props, "title"), "T");
}

#[test]
fn split_first_keeps_id() {
    let mut n = Note::create("ops/split", "one two\n\ntail\n");
    let (target, tail) = (n.id(0), n.id(1));
    let w = n.split(0, "one\n\ntwo").unwrap();
    assert_eq!(w.block_ids.len(), 2);
    assert_eq!(w.block_ids[0], target);
    assert_ne!(w.block_ids[1], target);
    assert_eq!(n.source(), "one\n\ntwo\n\ntail\n");
    assert_eq!(n.id(2), tail);
}

#[test]
fn split_provenance_matches_a4_schema() {
    let mut n = Note::create("prov/split", "one two ^x\n\ntail\n");
    let target = n.id(0);
    let w = n.split(0, "one\n\ntwo ^x").unwrap();
    let split = get(&w.meta, "split").unwrap();
    assert_eq!(text(split, "from"), target.to_text());
    assert_eq!(items(split, "into").len(), 2);
    assert_eq!(text(split, "marker_to"), w.block_ids[1].to_text());
    assert!(get(&w.meta, "marker_to").is_none());
    assert_eq!(Op::Split.verb(), "split_block");
    assert_eq!(Op::Split.name(), "split");
}

#[test]
fn merge_keeps_chosen_id() {
    let mut n = Note::create("ops/merge", "one\n\ntwo\n\ntail\n");
    let (a, b) = (n.id(0), n.id(1));
    let w = n.merge(&vec![a, b], "one two", Some(b)).unwrap();
    assert_eq!(w.block_ids, vec![b]);
    assert_eq!(n.source(), "one two\n\ntail\n");
    assert_eq!(n.id(0), b);
    assert!(n.rows.iter().all(|r| r.id != a));
}

#[test]
fn merge_without_keep_records_provenance() {
    let mut n = Note::create("prov/merge", "alpha ^m\n\nbeta\n\ngamma\n");
    let (a, b) = (n.id(0), n.id(1));
    let w = n.merge(&vec![a, b], "alpha beta ^m", None).unwrap();
    let merge = get(&w.meta, "merge").unwrap();
    assert_eq!(text(merge, "into"), a.to_text());
    assert_eq!(items(merge, "from").len(), 2);
    assert_eq!(text(merge, "marker_to"), a.to_text());
    assert!(items(&w.meta, "removed").iter().any(|j| json_eq(j, &Json::Str(b.to_text()))));
}

#[test]
fn merge_retiree_with_descendants_is_pm006_even_when_keep_is_not_first() {
    let mut n = Note::create("prov/merge-keep", "- a\n  - a1\n- b\n");
    let item_a = n.id(0);
    let b = n.rows.iter().position(|r| r.content.starts_with('b')).unwrap();
    let item_b = n.id(b);
    let f = fault(n.merge(&vec![item_a, item_b], "- ab", Some(item_b)));
    assert_eq!(f, OpFault::MergeRetiresContainer { ord: 0 });
    assert_eq!(f.code(), Some(Pm::ContainerConstraint));
    assert_eq!(n.source(), "- a\n  - a1\n- b\n");
}

#[test]
fn final_block_ops_keep_trailing_trivia() {
    let mut n = Note::create("ops/eof", "alpha\n\nbeta");
    n.update(1, "BETA").unwrap();
    assert_eq!(n.source(), "alpha\n\nBETA");

    let mut n = Note::create("ops/eofsplit", "alpha\n\nbeta");
    n.split(1, "b1\n\nb2").unwrap();
    assert_eq!(n.source(), "alpha\n\nb1\n\nb2");

    let mut n = Note::create("ops/eofmerge", "alpha\n\nbeta");
    let ids = vec![n.id(0), n.id(1)];
    n.merge(&ids, "MERGED", None).unwrap();
    assert_eq!(n.source(), "MERGED");

    let mut n = Note::create("ops/eofkeep", "alpha\n\nbeta\n");
    n.update(1, "BETA").unwrap();
    assert_eq!(n.source(), "alpha\n\nBETA\n");

    let mut n = Note::create("ops/eofmid", "alpha\n\nbeta\n\ngamma");
    n.update(0, "ALPHA").unwrap();
    assert_eq!(n.source(), "ALPHA\n\nbeta\n\ngamma");
}

#[test]
fn typed_error_sqlstates() {
    let mut n = Note::create("errs", "alpha\n\n- a\n- b\n");
    let (alpha, item_a) = (n.id(0), n.id(1));
    let stranger = Uuid { value: 7 };
    let state = |f: OpFault| f.code().unwrap().sqlstate();
    assert_eq!(fault(n.update(0, "one\n\ntwo")), OpFault::UpdateArity { found: 2 });
    assert_eq!(state(fault(n.update(0, "one\n\ntwo"))), "PM004");
    assert_eq!(fault(n.split(0, "only-one")), OpFault::SplitArity { found: 1 });
    assert_eq!(fault(n.update(0, "---\na: 1\n---\n\nx")), OpFault::Frontmatter);
    assert_eq!(state(fault(n.mv(0, Some(item_a), None))), "PM006");
    let f = fault(n.update(0, "```\nnope"));
    assert_eq!(state(f), "PM008");
    assert_eq!(f.message(), "splice restructures adjacent content");
    assert_eq!(fault(n.mv(0, None, None)), OpFault::NotOneAnchor);
    assert_eq!(fault(n.mv(0, Some(stranger), None)), OpFault::AnchorMissing);
    assert_eq!(fault(n.mv(0, Some(alpha), None)), OpFault::AnchorInside);
    assert_eq!(fault(n.insert("x", Some(alpha), Some(item_a))), OpFault::BothAnchors);
    assert_eq!(fault(n.insert("", None, None)), OpFault::NoBlocks);
    assert_eq!(fault(n.insert("x", None, Some(stranger))), OpFault::AnchorMissing);
    assert_eq!(fault(n.insert("x", None, Some(item_a))), OpFault::NotAList);
    assert_eq!(state(fault(n.insert("x", None, Some(item_a)))), "PM005");
    let inner = n.id(2);
    assert_eq!(fault(n.insert("x", None, Some(inner))), OpFault::AnchorNotTopLevel);
    assert_eq!(fault(n.split(1, "one\n\ntwo")), OpFault::SplitNotItems);
    assert_eq!(fault(n.merge(&vec![alpha], "x", None)), OpFault::MergeTooFew);
    assert_eq!(
        fault(n.merge(&vec![alpha, stranger], "x", None)),
        OpFault::NotInNote { id: stranger }
    );
    assert_eq!(fault(n.merge(&vec![alpha, alpha], "x", None)), OpFault::MergeDuplicates);
    assert_eq!(
        fault(n.merge(&vec![alpha, inner], "x", None)),
        OpFault::MergeNotContiguous { ord: 2 }
    );
    let b = n.rows.iter().position(|r| r.content == "b").unwrap();
    let item_b = n.id(b);
    assert_eq!(
        fault(n.merge(&vec![item_a, item_b], "- x", Some(alpha))),
        OpFault::KeepNotInSet
    );
    assert_eq!(
        fault(n.merge(&vec![item_a, item_b], "- x\n- y", None)),
        OpFault::MergeArity { found: 2 }
    );
    assert_eq!(fault(n.update(1, "- x\n  - y")), OpFault::NestedContainers);
    assert_eq!(fault(n.mv(2, Some(alpha), None)), OpFault::NotSiblings);
    assert_eq!(target_index(&n.rows, n.rows.len(), stranger), Err(OpFault::BlockMissing));
    assert_eq!(target_index(&n.rows, 0, alpha), Err(OpFault::Unsliceable));
    assert_eq!(target_index(&n.rows, n.rows.len(), item_a), Ok(1));
    assert_eq!(block_home(None, alpha), Err(OpFault::BlockMissing));
    assert_eq!(block_home(Some((alpha, item_a)), stranger), Err(OpFault::OtherVault));
    assert_eq!(block_home(Some((alpha, stranger)), stranger), Ok(alpha));
    assert_eq!(OpFault::BlockMissing.code(), Some(Pm::BlockNotFound));
    assert_eq!(OpFault::Unsliceable.code(), None);
}

#[test]
fn operations_on_nested_content() {
    let mut n = Note::create("nest", "- a\n  - a1\n\n  after\n");
    assert_eq!(fault(n.update(0, "- x")), OpFault::NonContiguous);
    let mut n = Note::create("nest2", "- a\n  - a1\n- b\n");
    assert_eq!(fault(n.update(0, "plain")), OpFault::MustStayItem);
    assert_eq!(fault(n.split(0, "- x\n- y")), OpFault::SplitContainer);
    assert_eq!(fault(n.update(0, "- A")), OpFault::OutsideCount { before: 2, after: 4 });
    assert_eq!(n.source(), "- a\n  - a1\n- b\n");
}

#[test]
fn different_containers_are_not_siblings() {
    let mut n = Note::create("quotes", "> one\n\n> two\n\nthree\n");
    let two = n.id(1);
    assert_eq!(fault(n.mv(0, Some(two), None)), OpFault::OtherContainer);
}

// ---- history ----

#[test]
fn every_revision_reads_back_and_diffs() {
    let mut n = Note::create("h", "# T\n\nalpha\n\nbeta\n");
    n.put("# T\n\nalpha\n\nbeta\n\ngamma\n");
    n.update(1, "ALPHA").unwrap();
    let beta = n.id(2);
    n.mv(2, None, Some(n.id(3))).unwrap();
    n.put("# T\n\nALPHA\n\ngamma\n");
    assert_eq!(n.seq, 4);
    assert_eq!(n.as_of(0).source(), "# T\n\nalpha\n\nbeta\n");
    assert_eq!(n.as_of(2).source(), "# T\n\nALPHA\n\nbeta\n\ngamma\n");
    let d = diff(&n.as_of(0), &n.as_of(4));
    let kinds: Vec<ChangeKind> = d.iter().map(|c| c.change).collect();
    assert_eq!(kinds, vec![ChangeKind::Changed, ChangeKind::Removed, ChangeKind::Added]);
    assert_eq!(d[0].before.as_deref(), Some("alpha"));
    assert_eq!(d[0].after.as_deref(), Some("ALPHA"));
    assert_eq!(d[1].block_id, beta);
    let moved = diff(&n.as_of(2), &n.as_of(3));
    assert!(moved.iter().all(|c| c.change == ChangeKind::Moved));
    assert_eq!(moved.len(), 2);
    assert_eq!(ChangeKind::Moved.name(), "moved");
    assert!(diff(&n.as_of(3), &n.as_of(3)).is_empty());
    let lines = blocks_rows(&n.as_of(0));
    assert_eq!(lines[1].content, "alpha");
    assert_eq!(lines[1].heading_path, vec!["T".to_string()]);
    assert_eq!(lines[1].ord, 1);
}

#[test]
fn a_frame_is_an_anchor() {
    let mut n = Note::create("f", "one ^m\n");
    n.put("one ^m\n\ntwo\n");
    let at1 = n.state();
    let frame = maybe_frame(50, 50, &at1).unwrap();
    assert!(maybe_frame(51, 50, &at1).is_none());
    assert!(maybe_frame(51, 0, &at1).is_some());
    let back = frame_state(&frame);
    assert_eq!(back.source(), at1.source());
    assert!(diff(&back, &at1).is_empty());
    n.put("three\n");
    n.put("four\n");
    let s = state_at(0, n.seq, Some((1, back)), n.state(), &n.revisions).unwrap();
    assert_eq!(s.source(), "one ^m\n");
    assert_eq!(s.ids, n.as_of(0).ids);
}

#[test]
fn an_erased_pre_image_reads_as_erased() {
    let mut n = Note::create("r", "keep\n\nsecret\n");
    let secret = n.id(1);
    n.put("keep\n");
    let pre = &mut n.revisions[0].pre;
    for e in pre.effects.iter_mut() {
        if e.block_id == secret {
            e.prev = None;
        }
    }
    let s = rewind(n.state(), &n.revisions[0].pre).unwrap();
    let b = s.blocks.get(secret).unwrap();
    assert_eq!(b.content, "");
    assert_eq!(b.kind, "paragraph");
    assert!(json_eq(get(&b.attrs, "redacted").unwrap(), &Json::Bool(true)));
}

#[test]
fn a_script_that_does_not_fit_is_refused() {
    let mut n = Note::create("bad", "one\n");
    n.put("two\n");
    n.revisions[0].pre.tiles.ops = vec![0, 5, 1];
    assert!(rewind(n.state(), &n.revisions[0].pre).is_none());
    n.revisions[0].pre.tiles.ops = vec![7];
    assert!(rewind(n.state(), &n.revisions[0].pre).is_none());
}

#[test]
fn deleting_and_undeleting() {
    let mut n = Note::create("gone", "---\nt: 1\n---\n\n# A\n\nbody [[x]] #y\n");
    let source = n.source();
    let before = n.state();
    let pre = delete_note(&StoredNote {
        path: &n.path,
        preamble: &n.preamble,
        props: &n.props,
        tiles: &n.tiles,
        rows: &n.rows,
    });
    assert_eq!(pre.effects.len(), n.rows.len());
    n.preamble = String::new();
    n.props = empty_object();
    n.tiles.clear();
    n.rows.clear();
    n.edges.clear();
    n.tags.clear();
    n.revise(pre);
    let target = undelete_note(false, Some(n.seq)).unwrap();
    let back = n.as_of(target);
    assert_eq!(back.source(), source);
    assert!(diff(&back, &before).is_empty());
    assert_eq!(undelete_note(true, Some(3)), Err(LifecycleFault::PathTaken));
    assert_eq!(undelete_note(false, None), Err(LifecycleFault::NotDeleted));
    assert_eq!(undelete_note(false, Some(0)), Err(LifecycleFault::NothingBefore));
    assert_eq!(LifecycleFault::NothingBefore.code(), Pm::HistoryUnavailable);
}

#[test]
fn moving_a_note() {
    let h = Uuid { value: 5 };
    let other = Uuid { value: 6 };
    assert_eq!(move_note("a", " b ", "a", None, h, false), Ok("b".to_string()));
    assert_eq!(move_note("a", "b//c", "a", None, h, false), Err(LifecycleFault::InvalidPath));
    assert_eq!(move_note("a", "b", "z", None, h, false), Err(LifecycleFault::Renamed));
    assert_eq!(move_note("a", "b", "a", None, h, true), Err(LifecycleFault::PathTaken));
    assert_eq!(move_note("a", "a", "a", Some(h), h, true), Ok("a".to_string()));
    let stale = move_note("a", "b", "a", Some(other), h, false).unwrap_err();
    assert_eq!(stale.code(), Pm::StaleHead);
    assert_eq!(pgmind::lifecycle::lock_order("b", "a"), ("a", "b"));
    assert_eq!(pgmind::lifecycle::lock_order("a", "b"), ("a", "b"));
}

#[test]
fn points_in_history() {
    let row = |v: u128, seq: i64, t: i64| RevisionRow { id: Uuid { value: v }, seq, created_at: t };
    let rows = vec![row(10, 0, 100), row(11, 1, 200), row(12, 2, 300)];
    assert_eq!(resolve_at(&rows, 2, 0, At::Revision(Uuid { value: 11 })), Ok(1));
    assert_eq!(
        resolve_at(&rows, 2, 0, At::Revision(Uuid { value: 99 })),
        Err(AtFault::NotARevision)
    );
    assert_eq!(resolve_at(&rows, 2, 0, At::Number(2)), Ok(2));
    assert_eq!(resolve_at(&rows, 2, 0, At::Number(3)), Err(AtFault::BeyondHead));
    assert_eq!(resolve_at(&rows, 2, 0, At::Time(250)), Ok(1));
    assert_eq!(resolve_at(&rows, 2, 0, At::Time(50)), Err(AtFault::NothingThatEarly));
    assert_eq!(resolve_at(&rows, 2, 1, At::Number(0)), Err(AtFault::BelowFloor));
    assert_eq!(AtFault::NotARevision.code(), Pm::UnknownRevision);
    assert_eq!(AtFault::BelowFloor.code(), Pm::HistoryUnavailable);
    assert_eq!(AtFault::BeyondHead.message(), "seq is beyond the note's head");
}

#[test]
fn history_is_probed_where_it_can_fail() {
    assert_eq!(probes(0, 0, None), vec![0]);
    assert_eq!(probes(0, 3, Some(2)), vec![0, 1, 2, 3]);
    let p = probes(10, 110, Some(57));
    assert_eq!(p[0], 10);
    assert_eq!(p[1], 15);
    assert!(p.contains(&57));
    assert_eq!(*p.last().unwrap(), 110);
    let mut n = Note::create("v", "one\n");
    n.put("two\n");
    let counts =
        HistoryCounts { head: 1, floor: 0, revisions: 2, recorded: 2, floor_frames: 0 };
    let states = vec![(0, n.as_of(0)), (1, n.as_of(1))];
    assert!(verify_history(&counts, &states).is_empty());
    let bad = HistoryCounts { head: 5, floor: 1, revisions: 2, recorded: 1, floor_frames: 0 };
    assert_eq!(
        verify_history(&bad, &Vec::new()),
        vec![
            HistoryFault::NotDense { revisions: 2, floor: 1, head: 5 },
            HistoryFault::Missing { revisions: 2, recorded: 1 },
            HistoryFault::NoFloorFrame { floor: 1 },
        ]
    );
    let headless = HistoryCounts { head: -1, floor: 0, revisions: 0, recorded: 0, floor_frames: 0 };
    assert_eq!(verify_history(&headless, &states), vec![HistoryFault::NoHead]);
    let mut broken = n.as_of(1);
    broken.place[0] = (0, 0, 99);
    assert_eq!(
        check_state(1, &broken),
        vec![HistoryFault::OutsideTile { seq: 1, block: 0, place: (0, 0, 99) }]
    );
    broken.place.clear();
    assert_eq!(
        check_state(1, &broken),
        vec![HistoryFault::Vectors { seq: 1, ids: 1, places: 0, heads: 1 }]
    );
    let mut short = n.as_of(1);
    short.tiles[0] = "a\n\nb\n".to_string();
    assert_eq!(
        check_state(1, &short),
        vec![HistoryFault::BlockCount { seq: 1, parsed: 2, ids: 1 }]
    );
}

#[test]
fn a_damaged_note_is_reported() {
    let mut n = Note::create("d", "# A\n\nbody #t [[x]]\n");
    n.rows[1].content = "other".to_string();
    n.rows[1].ord = 7;
    let parsed = n.parsed();
    let report = verify_note(
        &NoteFacts {
            head_is_own: None,
            preamble: "zz",
            tiles: &n.tiles,
            rows: &n.rows,
            edges: &Vec::new(),
            tags: &Vec::new(),
            exact: &Vec::new(),
            names: &Vec::new(),
        },
        &parsed,
    );
    assert!(!report.clean());
    assert!(report.head_missing);
    assert_eq!(report.preamble, Some((2, 0)));
    let id = n.id(1);
    assert_eq!(
        report.blocks,
        vec![(id, BlockFault::Ord { found: 7, expected: 1 }), (id, BlockFault::Content)]
    );
    assert_eq!(report.edges_missing.len(), 1);
    assert_eq!(report.edges_missing[0].dangling_reason.as_deref(), Some("missing"));
    assert_eq!(report.tags_missing.len(), 1);
    assert!(report.edges_unexpected.is_empty());
}
