use pgmind::content::{strip_columns, strip_columns_ws_only, strip_quote_prefix};
use pgmind::frontmatter::extract;
use pgmind::json::{get, Json};
use pgmind::path::{
    basename, glob_is_valid, glob_literal_prefix, glob_match, path_is_valid, path_normalize,
    MAX_GLOB_BYTES, MAX_PATH_BYTES,
};
use pgmind::span::{LineOffsets, Span};

#[test]
fn line_offsets_basic() {
    let lo = LineOffsets::new("ab\ncd\n\nef");
    assert_eq!(lo.line_start(1), 0);
    assert_eq!(lo.line_start(2), 3);
    assert_eq!(lo.line_start(3), 6);
    assert_eq!(lo.line_start(4), 7);
    assert_eq!(lo.line_start(5), 9); // past EOF -> len
    assert_eq!(lo.line_span(2, 3), Span { start: 3, end: 7 });
}

#[test]
fn no_trailing_newline() {
    let lo = LineOffsets::new("ab");
    assert_eq!(lo.line_span(1, 1), Span { start: 0, end: 2 });
}

#[test]
fn lines_end_with_crlf_or_lone_cr_too() {
    let lo = LineOffsets::new("a\r\nb\rc\n");
    assert_eq!(lo.line_start(2), 3);
    assert_eq!(lo.line_start(3), 5);
    assert_eq!(lo.line_start(4), 7);
    assert_eq!(lo.line_span(usize::MAX, usize::MAX), Span { start: 7, end: 7 });
    assert_eq!(lo.line_start(0), 0);
}

#[test]
fn quote_prefix_variants() {
    assert_eq!(strip_quote_prefix("> foo"), "foo");
    assert_eq!(strip_quote_prefix(">foo"), "foo");
    assert_eq!(strip_quote_prefix("   > foo"), "foo");
    assert_eq!(strip_quote_prefix("lazy line"), "lazy line");
}

#[test]
fn item_columns() {
    assert_eq!(strip_columns("- foo", 2), "foo");
    assert_eq!(strip_columns("10. foo", 4), "foo");
    assert_eq!(strip_columns_ws_only("  bar", 2), "bar");
    assert_eq!(strip_columns_ws_only("bar", 2), "bar");
}

#[test]
fn tabs_advance_to_the_next_stop() {
    assert_eq!(strip_columns_ws_only("\tbar", 2), "bar");
    assert_eq!(strip_columns_ws_only(" \t bar", 4), " bar");
    assert_eq!(strip_columns("-\tfoo", 4), "foo");
    assert_eq!(strip_columns("ab", 9), "");
}

#[test]
fn normalize_nfc_and_trim() {
    // "é" as e + combining acute → NFC single code point
    assert_eq!(path_normalize("  caf\u{0065}\u{0301}  "), "caf\u{00e9}");
}

#[test]
fn validity() {
    assert!(path_is_valid("projects/auth"));
    assert!(path_is_valid("a"));
    assert!(path_is_valid("caf\u{00e9}/notes"));
    for bad in [
        "",
        "/a",
        "a/",
        "a//b",
        "a/./b",
        "a/../b",
        ".",
        "..",
        "a\\b",
        "a/\u{0007}",
        " a",
        "a ",
        "a/ b",
        "a /b",
        "caf\u{0065}\u{0301}", // NFD — must be normalized before validation
    ] {
        assert!(!path_is_valid(bad), "expected invalid: {bad:?}");
    }
    assert!(!path_is_valid(&"x".repeat(MAX_PATH_BYTES + 1)));
    assert!(path_is_valid(&"x".repeat(MAX_PATH_BYTES)));
}

#[test]
fn basenames() {
    assert_eq!(basename("projects/auth"), "auth");
    assert_eq!(basename("auth"), "auth");
}

#[test]
fn globs() {
    assert!(glob_match("**", "a/b/c"));
    assert!(glob_match("**", "a"));
    assert!(glob_match("projects/**", "projects/auth"));
    assert!(glob_match("projects/**", "projects/a/b"));
    assert!(!glob_match("projects/**", "other/auth"));
    // '**' matches zero segments
    assert!(glob_match("projects/**/auth", "projects/auth"));
    assert!(glob_match("projects/**/auth", "projects/x/y/auth"));
    assert!(glob_match("*/auth", "projects/auth"));
    assert!(!glob_match("*/auth", "a/b/auth"));
    assert!(glob_match("proj*s/a*h", "projects/auth"));
    assert!(!glob_match("proj*s", "projects/auth"));
    // '*' does not cross segments
    assert!(!glob_match("p*h", "projects/auth"));
    // literal match, case-sensitive
    assert!(glob_match("A", "A"));
    assert!(!glob_match("a", "A"));
}

#[test]
fn star_is_a_legal_path_character() {
    // `*` in the PATH must not consume a `*` in the PATTERN without
    // leaving a backtrack point.
    assert!(glob_match("a*c", "a*bc"));
    assert!(glob_match("*x", "*yx"));
    assert!(glob_match("*", "*"));
    assert!(glob_match("a*", "a*b*c"));
    assert!(!glob_match("a*c", "a*bd"));
}

#[test]
fn repeated_double_stars_are_linear() {
    // Cheap however many `**` segments there are, and without recursion.
    let deep = vec!["a"; 400].join("/");
    let many = format!("{}zzz", "**/".repeat(300));
    assert!(!glob_match(&many, &deep));
    assert!(glob_match(&format!("{}a", "**/".repeat(300)), &deep));
    // Zero-segment absorption still works with many stars in a row.
    assert!(glob_match("**/**/**/a", "a"));
    assert!(glob_match("a/**/**/b", "a/b"));
}

#[test]
fn literal_prefixes() {
    // Must never exclude a path the glob matches.
    assert_eq!(glob_literal_prefix("projects/auth/**"), "projects/auth");
    assert_eq!(glob_literal_prefix("projects/*"), "projects/");
    assert_eq!(glob_literal_prefix("proj*s/a*h"), "proj");
    assert_eq!(glob_literal_prefix("**"), "");
    assert_eq!(glob_literal_prefix("a/b/c"), "a/b/c");
    for (glob, path) in [
        ("projects/**", "projects"),
        ("projects/**", "projects/auth"),
        ("projects/*", "projects/auth"),
        ("**", "a/b"),
        ("a/b/c", "a/b/c"),
    ] {
        assert!(glob_match(glob, path), "{glob} should match {path}");
        assert!(
            path.starts_with(&glob_literal_prefix(glob)),
            "prefix of {glob} wrongly excludes {path}"
        );
    }
}

#[test]
fn glob_size_bound() {
    assert!(glob_is_valid("**"));
    assert!(!glob_is_valid(""));
    assert!(glob_is_valid(&"a".repeat(MAX_GLOB_BYTES)));
    assert!(!glob_is_valid(&"a".repeat(MAX_GLOB_BYTES + 1)));
}

#[test]
fn absent() {
    assert_eq!(extract("# hi\n").len, 0);
}

#[test]
fn valid_mapping() {
    let fm = extract("---\ntitle: Auth\ntags: [a, b]\npgmind-pin: true\n---\nbody\n");
    assert!(fm.len > 0);
    assert!(matches!(get(&fm.properties, "title"), Some(Json::Str(s)) if s == "Auth"));
    assert_eq!(fm.tags, vec!["a", "b"]);
    assert!(fm.pin);
}

#[test]
fn tags_scalar() {
    let fm = extract("---\ntags: solo\n---\n");
    assert_eq!(fm.tags, vec!["solo"]);
}

#[test]
fn invalid_yaml_is_content() {
    assert_eq!(extract("---\n: : :\n---\n").len, 0);
}

#[test]
fn non_mapping_is_content() {
    assert_eq!(extract("---\n- just\n- a list\n---\n").len, 0);
}

#[test]
fn unclosed_is_content() {
    assert_eq!(extract("---\ntitle: x\n").len, 0);
}

#[test]
fn thematic_break_lookalike() {
    // `---` followed by a blank line then `---` IS frontmatter with empty
    // YAML → empty YAML parses to zero docs → invalid → content.
    assert_eq!(extract("---\n\n---\n").len, 0);
}

#[test]
fn yaml_scalars_become_json() {
    let fm = extract("---\nn: 3\nx: 1.50\nb: false\nz: ~\nl: [1, two]\nm: {k: v}\nodd: .inf\n---\n");
    assert!(matches!(get(&fm.properties, "n"), Some(Json::Int(3))));
    assert!(matches!(get(&fm.properties, "x"), Some(Json::Real(s)) if s == "1.5"));
    assert!(matches!(get(&fm.properties, "b"), Some(Json::Bool(false))));
    assert!(matches!(get(&fm.properties, "z"), Some(Json::Null)));
    assert!(matches!(get(&fm.properties, "l"), Some(Json::Array(v)) if v.len() == 2));
    assert!(matches!(get(&fm.properties, "m"), Some(Json::Object(v)) if v.len() == 1));
    assert!(matches!(get(&fm.properties, "odd"), Some(Json::Str(s)) if s == ".inf"));
    assert_eq!(extract("---\n1: a\n---\n").len, 0);
}

#[test]
fn a_leading_slash_stays_in_the_prefix() {
    assert_eq!(glob_literal_prefix("/a*"), "/a");
    assert!(glob_match("/a*", "/ab"));
    assert!("/ab".starts_with(&glob_literal_prefix("/a*")));
    assert_eq!(glob_literal_prefix("/*"), "/");
    assert_eq!(glob_literal_prefix("/**"), "");
    assert_eq!(glob_literal_prefix("//b*"), "//b");
}

#[test]
fn a_normal_path_stays_as_it_is() {
    for raw in ["\u{2003} cafe\u{301}/x\t", "\u{2000}a\u{3000}", "  ", "", "e\u{301} "] {
        let once = path_normalize(raw);
        assert_eq!(path_normalize(&once), once);
        assert_eq!(once.trim(), once);
    }
    assert!(path_is_valid("a/caf\u{e9}"));
    assert_eq!(path_normalize("a/caf\u{e9}"), "a/caf\u{e9}");
}

#[test]
fn white_space_and_control_are_what_unicode_says() {
    for c in "\u{9}\u{d} \u{85}\u{a0}\u{1680}\u{2000}\u{200a}\u{2028}\u{2029}\u{202f}\u{205f}\u{3000}".chars() {
        assert_eq!(path_normalize(&format!("a{c}")), "a");
    }
    for c in "\u{8}\u{e}\u{200b}\u{180e}\u{feff}".chars() {
        assert_ne!(path_normalize(&format!("a{c}")), "a");
    }
    for c in "\u{0}\u{1f}\u{7f}\u{80}\u{9f}".chars() {
        assert!(!path_is_valid(&format!("a{c}b")));
    }
    assert!(path_is_valid("a\u{a1}b"));
}
