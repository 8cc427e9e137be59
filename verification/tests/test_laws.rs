use insta::content::order::{key_sorts_before, sorted_maps};
use insta::content::Content;
use insta::snapfile::{split_snapshot_file, SnapshotHeader};
use insta::snapshot::SnapshotContents;
use insta::env::{SnapshotUpdate, SnapshotUpdateBehavior};
use insta::runtime::assert_snapshot;

/// The text a literal written by `to_inline` holds.
fn literal_value(literal: &str) -> String {
    if let Some(rest) = literal.strip_prefix("r###\"") {
        rest.strip_suffix("\"###").unwrap().to_string()
    } else {
        literal
            .strip_prefix('"')
            .unwrap()
            .strip_suffix('"')
            .unwrap()
            .to_string()
    }
}

fn reads_back(contents: &str, indentation: usize) {
    let written = SnapshotContents::from_text(contents).to_inline(indentation);
    let read = SnapshotContents::from_inline(&literal_value(&written));
    assert_eq!(read.as_str().trim_end(), contents.trim_end(), "literal: {written:?}");
}

#[test]
fn inline_snapshots_read_back() {
    reads_back("hello world", 0);
    reads_back("hello \"quoted\" \\ world", 8);
    reads_back("", 4);
    reads_back("line one\nline two\n", 4);
    reads_back("a\n  indented\n\n  more\nlast  ", 8);
    reads_back("  first indented\nnot indented\n", 2);
    reads_back("trailing blank lines\n   \n\n", 0);
}

#[test]
fn written_snapshot_files_read_back() {
    let header = "---\nsource: tests/test_basic.rs\nexpression: x\n";
    for contents in ["", "one line", "two\nlines", "ends in a break\n", "---\nlooks like a marker"] {
        let file = format!("{header}---\n{contents}\n");
        let parts = split_snapshot_file(&file);
        assert!(matches!(parts.header, SnapshotHeader::Yaml(ref h) if h == header));
        assert_eq!(parts.contents, contents);
    }
}

#[test]
fn sorted_maps_are_sorted_permutations() {
    let keys = ["delta", "alpha", "charlie", "bravo", "alpha"];
    let map = Content::Mapping(
        keys.iter()
            .enumerate()
            .map(|(i, k)| (Content::String(k.to_string()), Content::U64(i as u64)))
            .collect(),
    );
    match sorted_maps(&map) {
        Content::Mapping(es) => {
            assert_eq!(es.len(), keys.len());
            for w in es.windows(2) {
                assert!(!key_sorts_before(&w[1].0, &w[0].0));
            }
            let mut seen: Vec<u64> = es
                .iter()
                .map(|(_, v)| match v {
                    Content::U64(n) => *n,
                    _ => unreachable!(),
                })
                .collect();
            seen.sort();
            assert_eq!(seen, vec![0, 1, 2, 3, 4]);
            assert!(matches!(es[0].1, Content::U64(1)));
            assert!(matches!(es[1].1, Content::U64(4)));
        }
        _ => panic!("not a map"),
    }
}

#[test]
fn no_key_sorts_both_ways() {
    let values = vec![
        Content::I32(-3),
        Content::U8(7),
        Content::String("x".to_string()),
        Content::Bool(false),
        Content::Tuple(vec![Content::I32(1)]),
        Content::Nothing,
    ];
    for a in &values {
        for b in &values {
            assert!(!(key_sorts_before(a, b) && key_sorts_before(b, a)));
        }
    }
}

fn config_with(update: insta::env::SnapshotUpdate, force_pass: bool) -> insta::env::ToolConfig {
    let env = insta::env::EnvVars {
        require_full_match: None,
        force_pass: None,
        output: None,
        update: None,
        glob_fail_fast: None,
        test_runner: None,
        test_runner_fallback: None,
        force_update: None,
        force_update_snapshots: None,
    };
    let mut config = insta::env::ToolConfig::from_workspace(None, &env).unwrap();
    config.snapshot_update = update;
    config.force_pass = force_pass;
    config
}

#[test]
fn assertion_outcomes_follow_the_update_setting() {
    let old = SnapshotContents::from_text("a");
    let same = SnapshotContents::from_text("a  \n");
    let other = SnapshotContents::from_text("b");

    let c = config_with(SnapshotUpdate::Auto, false);
    let o = assert_snapshot(&c, Some(&old), &same, true, true, false, false, false);
    assert!(o.pass && !o.fail && o.update.is_none());

    let c = config_with(SnapshotUpdate::Force, false);
    let o = assert_snapshot(&c, Some(&old), &same, true, true, false, false, false);
    assert!(o.pass && !o.fail && o.update == Some(SnapshotUpdateBehavior::InPlace));

    let c = config_with(SnapshotUpdate::Always, false);
    let o = assert_snapshot(&c, Some(&old), &other, true, true, false, false, false);
    assert!(!o.pass && !o.fail && o.update == Some(SnapshotUpdateBehavior::InPlace));

    let c = config_with(SnapshotUpdate::Auto, false);
    let o = assert_snapshot(&c, Some(&old), &other, true, true, true, false, false);
    assert!(!o.pass && o.fail && o.update == Some(SnapshotUpdateBehavior::NoUpdate));

    let c = config_with(SnapshotUpdate::No, true);
    let o = assert_snapshot(&c, Some(&old), &other, true, true, false, false, false);
    assert!(!o.pass && !o.fail && o.update == Some(SnapshotUpdateBehavior::NoUpdate));

    let c = config_with(SnapshotUpdate::Auto, false);
    let o = assert_snapshot(&c, None, &other, true, false, false, false, false);
    assert!(!o.pass && o.fail && o.update == Some(SnapshotUpdateBehavior::NewFile));
}

#[test]
fn update_modes_decide_where_a_failing_snapshot_goes() {
    let old = SnapshotContents::from_text("a");
    let new = SnapshotContents::from_text("b");
    let run = |mode, exists, ci| {
        let c = config_with(mode, false);
        assert_snapshot(&c, Some(&old), &new, true, exists, ci, true, false).update
    };
    assert_eq!(run(SnapshotUpdate::Auto, true, false), Some(SnapshotUpdateBehavior::NewFile));
    assert_eq!(run(SnapshotUpdate::Auto, true, true), Some(SnapshotUpdateBehavior::NoUpdate));
    assert_eq!(run(SnapshotUpdate::New, true, false), Some(SnapshotUpdateBehavior::NewFile));
    assert_eq!(run(SnapshotUpdate::Always, true, false), Some(SnapshotUpdateBehavior::InPlace));
    assert_eq!(run(SnapshotUpdate::Unseen, true, false), Some(SnapshotUpdateBehavior::NewFile));
    assert_eq!(run(SnapshotUpdate::Unseen, false, false), Some(SnapshotUpdateBehavior::InPlace));
    assert_eq!(run(SnapshotUpdate::No, true, false), Some(SnapshotUpdateBehavior::NoUpdate));

    // Forced updates write even a passing snapshot.
    let c = config_with(SnapshotUpdate::Force, false);
    let o = assert_snapshot(&c, Some(&old), &old, true, true, false, true, false);
    assert!(o.pass && o.update == Some(SnapshotUpdateBehavior::InPlace));

    // An inline snapshot is never written in place.
    let c = config_with(SnapshotUpdate::Always, false);
    let o = assert_snapshot(&c, Some(&old), &new, false, false, false, true, false);
    assert_eq!(o.update, Some(SnapshotUpdateBehavior::NewFile));
}

#[test]
fn automatic_names_count_up_and_then_clash() {
    let mut reg = insta::runtime::NameRegistry::new();
    let f = "test_basic::test_unnamed_debug_vector";
    assert_eq!(reg.detect_snapshot_name(f, "test_basic", None, false), "unnamed_debug_vector");
    assert_eq!(reg.detect_snapshot_name(f, "test_basic", None, false), "unnamed_debug_vector-2");
    assert_eq!(reg.detect_snapshot_name(f, "test_basic", None, false), "unnamed_debug_vector-3");
    assert!(reg.clashes("test_basic::unnamed_debug_vector", "test_basic", None));
    assert!(!reg.clashes(f, "test_basic", None));
}

#[test]
fn json_strings_read_back() {
    for v in ["", "plain", "a\"\u{1f}", "tab\there\nnew \\ line\r\u{8}\u{c}/", "\u{0}\u{7f}é😀"] {
        let text = insta::content::json::to_string(&Content::String(v.to_string()));
        let back: String = serde_json::from_str(&text).unwrap();
        assert_eq!(back, v);
    }
    assert_eq!(
        insta::content::json::to_string(&Content::String("a\"\u{1f}".to_string())),
        r#""a\"\u001f""#
    );
}

#[test]
fn dedenting_twice_changes_nothing() {
    for s in ["first\n    a\n      b\n", "x\n\t\ty\r\n\t\tz", "only", "a\n  \n    b\n    c\n"] {
        let d = insta::tokenstream::dedent_doc_content(s);
        assert_eq!(insta::tokenstream::dedent_doc_content(&d), d);
    }
    assert_eq!(insta::tokenstream::dedent_doc_content("first\n    a\n      b\n"), "first\na\n  b\n");
}
