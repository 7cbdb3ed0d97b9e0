use pgmind::json::{get, Json};
use pgmind::vault::{parse_wiki, WikiOutcome};
use pgmind::{content_hash, parse, BlockKind, Document, LinkKind};

fn kinds(doc: &Document) -> Vec<&'static str> {
    doc.blocks.iter().map(|b| b.kind.tag()).collect()
}

fn tags(doc: &Document) -> Vec<&str> {
    doc.tags.iter().map(|t| t.tag.as_str()).collect()
}

#[test]
fn blocks_links_and_tags() {
    let src = "---\ntitle: X\ntags: [note]\n---\n\n# A\n\npara with [[link]] and #tag\n\n- item one\n- item two ^anchor\n\n> quoted\n";
    let doc = parse(src);
    assert!(doc.tiles_exactly(src));
    assert_eq!(doc.preamble.end, src.find("# A").unwrap());
    assert_eq!(
        kinds(&doc),
        vec!["heading", "paragraph", "list_item", "paragraph", "list_item", "paragraph", "paragraph"]
    );
    assert_eq!(doc.blocks[1].heading_path, vec!["A".to_string()]);
    assert_eq!(doc.links.len(), 1);
    assert_eq!(doc.links[0].target, "link");
    assert_eq!(tags(&doc), vec!["tag", "note"]);
    assert_eq!(doc.blocks[3].parent, Some(2));
    assert_eq!(doc.blocks[5].block_ref_id.as_deref(), Some("anchor"));
    assert_eq!(doc.blocks[4].block_ref_id, None);
    assert_eq!(doc.blocks[5].normalized_content, "item two");
    assert_eq!(doc.blocks[4].normalized_content, "item two");
    assert_eq!(doc.blocks[6].cont_prefix, "> ");
    assert_eq!(doc.blocks[4].first_line_strip_full, 2);
    assert_eq!(doc.blocks[4].first_line_strip_outer, 0);
    let top: Vec<&str> = doc.top_level.iter().map(|s| s.slice(src)).collect();
    assert_eq!(top[0], "# A\n\n");
    assert_eq!(top[2], "- item one\n- item two ^anchor\n\n");
}

#[test]
fn content_hash_is_over_kind_zero_content() {
    let mut bytes = b"paragraph".to_vec();
    bytes.push(0);
    bytes.extend_from_slice(b"alpha");
    assert_eq!(content_hash(BlockKind::Paragraph, "alpha"), *blake3::hash(&bytes).as_bytes());
    let doc = parse("alpha\n\nbeta");
    assert_eq!(doc.blocks[0].content_hash, content_hash(BlockKind::Paragraph, "alpha"));
    // Position does not count, kind does.
    let other = parse("# t\n\nalpha\n");
    assert_eq!(other.blocks[1].content_hash, doc.blocks[0].content_hash);
    assert_ne!(content_hash(BlockKind::Heading, "alpha"), doc.blocks[0].content_hash);
}

#[test]
fn an_id_never_changes_the_hash() {
    let bare = parse("Some text\n");
    for marked in ["Some text ^x1\n", "Some text ^x1  \n"] {
        let doc = parse(marked);
        assert_eq!(doc.blocks[0].block_ref_id.as_deref(), Some("x1"));
        assert_eq!(doc.blocks[0].content_hash, bare.blocks[0].content_hash);
    }
    let setext = parse("Title ^t\n=====\n");
    assert_eq!(setext.blocks[0].block_ref_id.as_deref(), Some("t"));
    assert_eq!(setext.blocks[0].content_hash, parse("Title\n=====\n").blocks[0].content_hash);
    // Code is content, not a marker.
    assert_eq!(parse("see `a ^x`\n").blocks[0].block_ref_id, None);
}

#[test]
fn link_kinds() {
    let doc = parse("See [[n#Sec|N]] and ![[e]] and [md](p/q.md#frag) and [[n#^b1]] [x](https://e.com) [[ ]] \\[[no]]\n");
    let got: Vec<(LinkKind, &str, Option<&str>, Option<&str>)> = doc
        .links
        .iter()
        .map(|l| (l.kind, l.target.as_str(), l.anchor.as_deref(), l.alias.as_deref()))
        .collect();
    assert_eq!(
        got,
        vec![
            (LinkKind::Mdlink, "p/q", Some("frag"), None),
            (LinkKind::Wikilink, "n", Some("Sec"), Some("N")),
            (LinkKind::Transclusion, "e", None, None),
            (LinkKind::Blockref, "n", Some("^b1"), None),
        ]
    );
}

#[test]
fn table_cells_are_scanned_as_literals() {
    let doc = parse("| a | b |\n|---|---|\n| #t | [[c\\|d]] |\n");
    assert_eq!(kinds(&doc), vec!["table"]);
    assert_eq!(tags(&doc), vec!["t"]);
    assert_eq!(doc.links[0].target, "c");
    assert_eq!(doc.links[0].alias.as_deref(), Some("d"));
}

#[test]
fn tags_need_space_before_and_a_letter() {
    assert_eq!(tags(&parse("#a x#b #12 #1a \\#c (#d) #e/f-g_h.\n")), vec!["a", "1a", "e/f-g_h"]);
    assert!(parse("`#no` <b>#yes</b>\n").tags.is_empty());
}

#[test]
fn heading_paths_and_attributes() {
    let doc = parse("# A\n\n## B [[x|Bee]] ^id\n\np\n\n# C\n\nq\n");
    assert_eq!(doc.blocks[2].heading_path, vec!["A".to_string(), "B Bee".to_string()]);
    assert_eq!(doc.blocks[4].heading_path, vec!["C".to_string()]);
    assert!(matches!(get(&doc.blocks[1].attrs, "level"), Some(Json::Int(2))));
    assert!(matches!(get(&doc.blocks[1].attrs, "text"), Some(Json::Str(s)) if s == "B Bee"));
    assert!(matches!(get(&doc.blocks[1].attrs, "block_ref_id"), Some(Json::Str(s)) if s == "id"));
    let code = parse("```rust\nfn f() {}\n```\n");
    assert!(matches!(get(&code.blocks[0].attrs, "info"), Some(Json::Str(s)) if s == "rust"));
}

#[test]
fn task_items_strip_their_checkbox() {
    let doc = parse("> - [x] done\n>   more\n");
    assert_eq!(kinds(&doc), vec!["list_item", "paragraph"]);
    assert_eq!(doc.blocks[0].normalized_content, "done\nmore");
    assert!(matches!(get(&doc.blocks[0].attrs, "checked"), Some(Json::Bool(true))));
    assert!(matches!(get(&doc.blocks[0].attrs, "ordered"), Some(Json::Bool(false))));
    assert_eq!(doc.blocks[0].line_prefix, "> ");
    assert_eq!(doc.blocks[0].first_line_strip_outer, 2);
    assert_eq!(doc.blocks[0].first_line_strip_full, 8);
}

#[test]
fn generated_documents_tile_exactly() {
    let fragments = [
        "# Heading {n}\n",
        "## Sub *{n}* [[note-{n}|alias]]\n",
        "Para with trailing spaces  \nhard break {n}.\n",
        "- item {n}\n- item [[x{n}]]\n  - nested {n}\n",
        "1. ordered {n}\n   continuation line\n",
        "> lazy quote {n}\nlazy continuation\n",
        "```rust\nfn f{n}() {{}}\n```\n",
        "    indented code {n}\n",
        "| a | b |\n|---|---|\n| {n} | [[c\\|d]] |\n",
        "---\n",
        "[ref{n}]: https://example.com/{n}\nUse [ref{n}] here.\n",
        "Block with id {n}. ^id-{n}\n",
        "<div>\nhtml block {n}\n</div>\n",
        "Setext {n}\n======\n",
        "\u{00e9}\u{0301} composed/decomposed {n}\r\n",
        "\n\n",
    ];
    let mut state: u64 = 0xC0FFEE | 1;
    for i in 0..300u64 {
        let mut doc = String::new();
        for _ in 0..(1 + i % 9) {
            state ^= state >> 12;
            state ^= state << 25;
            state ^= state >> 27;
            let k = (state.wrapping_mul(0x2545F4914F6CDD1D) % fragments.len() as u64) as usize;
            doc.push_str(&fragments[k].replace("{n}", &i.to_string()));
        }
        let parsed = parse(&doc);
        assert!(parsed.tiles_exactly(&doc), "{doc:?}");
        for (k, b) in parsed.blocks.iter().enumerate() {
            assert!(b.parent.is_none_or(|p| (p as usize) < k));
        }
    }
}

#[test]
fn a_blank_anchor_makes_no_link() {
    let wiki = |text: &str| parse_wiki(&text.chars().collect(), 0);
    assert!(matches!(wiki("# ]]"), WikiOutcome::Invalid(4)));
    assert!(matches!(wiki(" ]] more"), WikiOutcome::Invalid(3)));
    assert!(matches!(wiki("#x]]"), WikiOutcome::Found(p, 4)
        if p.target.is_empty() && p.anchor.as_deref() == Some("x")));
    assert!(matches!(wiki("note# ]]"), WikiOutcome::Found(p, 8)
        if p.target == "note" && p.anchor.is_none()));
    assert!(matches!(wiki("open"), WikiOutcome::NoTerminator));
    let doc = parse("see [[# ]] and [[a]]\n");
    assert_eq!(doc.links.len(), 1);
    assert_eq!(doc.links[0].target, "a");
}

#[test]
fn only_items_hold_blocks() {
    let doc = parse("> - a\n>   > b\n> - c\n>\n>   ```\n>   d\n>   ```\n\n# h\n");
    for (i, b) in doc.blocks.iter().enumerate() {
        assert_eq!(b.ord as usize, i);
        assert!(!b.normalized_content.ends_with('\n'));
        assert_eq!(b.content_hash, content_hash(b.kind, &b.normalized_content));
        if let Some(p) = b.parent {
            assert!((p as usize) < i);
            assert_eq!(doc.blocks[p as usize].kind, BlockKind::ListItem);
        }
    }
    assert!(doc.blocks.iter().any(|b| b.parent.is_some()));
}

#[test]
fn tags_of_the_note_come_last() {
    let doc = parse("---\ntags: [x, y]\n---\n#one and #two\n");
    let of: Vec<(&str, Option<u32>)> = doc.tags.iter().map(|t| (t.tag.as_str(), t.block)).collect();
    assert_eq!(of, vec![("one", Some(0)), ("two", Some(0)), ("x", None), ("y", None)]);
}

#[test]
fn an_id_never_changes_content_inside_containers() {
    for (plain, marked) in [
        ("> - a\n>   b\n> - c\n", "> - a\n>   b ^x-1\n> - c\n"),
        ("1. one\n\n   > two\r\n   > three\n", "1. one\n\n   > two\r\n   > three ^y \t\n"),
        ("- [x] done", "- [x] done ^z"),
        ("Title\n=====\n", "Title ^t\n=====\n"),
        ("caf\u{e9} e\u{301}\n", "caf\u{e9} e\u{301} ^n\n"),
    ] {
        let (a, b) = (parse(plain), parse(marked));
        assert_eq!(a.blocks.len(), b.blocks.len());
        assert!(b.blocks.iter().any(|x| x.block_ref_id.is_some()), "{marked:?}");
        for (x, y) in a.blocks.iter().zip(&b.blocks) {
            assert_eq!(x.normalized_content, y.normalized_content);
            assert_eq!(x.content_hash, y.content_hash);
        }
    }
    assert_eq!(parse("e\u{301} ^n\n").blocks[0].normalized_content, "\u{e9}");
}
