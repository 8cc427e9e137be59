use insta::content::json::{to_string_compact, to_string_pretty};
use insta::content::Content;
use insta::env::{EnvVars, ToolConfig};
use insta::paths::find_common_prefix;
use insta::runtime::{
    add_suffix_to_snapshot_name, assert_snapshot, clean_function_name, get_snapshot_filename,
    DuplicateRecords, InlineDuplicates, NameRegistry,
};
use insta::snapshot::SnapshotContents;

fn no_env() -> EnvVars {
    EnvVars {
        require_full_match: None,
        force_pass: None,
        output: None,
        update: None,
        glob_fail_fast: None,
        test_runner: None,
        test_runner_fallback: None,
        force_update: None,
        force_update_snapshots: None,
    }
}

fn config() -> ToolConfig {
    ToolConfig::from_workspace(None, &no_env()).unwrap()
}

fn comps(p: &str) -> Vec<String> {
    let mut out = Vec::new();
    if p.starts_with('/') {
        out.push("/".to_string());
    }
    for c in p.split('/') {
        if !c.is_empty() {
            out.push(c.to_string());
        }
    }
    out
}

/// The file a named snapshot of `module` in `tests/<file>` is stored in.
fn snapshot_file(module: &str, file: &str, name: &str) -> Vec<String> {
    get_snapshot_filename(
        module,
        &comps(file),
        name,
        &comps("/ws"),
        false,
        &comps("snapshots"),
        true,
    )
}

/// Whether a new file snapshot matches the stored one.
fn file_passes(stored: &str, new: &str) -> bool {
    let cfg = config();
    let old = SnapshotContents::from_text(stored);
    let new = SnapshotContents::from_text(new);
    let out = assert_snapshot(&cfg, Some(&old), &new, true, true, false, true, false);
    out.pass && !out.fail && out.update.is_none()
}

/// Whether a new value matches an inline snapshot literal.
fn inline_passes(literal: &str, new: &str) -> bool {
    let cfg = config();
    let old = SnapshotContents::from_inline(literal);
    let new = SnapshotContents::from_text(new);
    let out = assert_snapshot(&cfg, Some(&old), &new, false, false, false, true, false);
    out.pass && !out.fail
}

fn seq123() -> Content {
    Content::Sequence(vec![Content::I32(1), Content::I32(2), Content::I32(3)])
}

#[test]
fn test_debug_vector() {
    let name = add_suffix_to_snapshot_name("debug_vector", None);
    assert_eq!(
        snapshot_file("test_basic", "tests/test_basic.rs", &name),
        comps("/ws/tests/snapshots/test_basic__debug_vector.snap")
    );
    assert!(file_passes("[\n    1,\n    2,\n    3,\n]", &format!("{:#?}", vec![1, 2, 3])));
}

#[test]
fn test_unnamed_debug_vector() {
    let mut names = NameRegistry::new();
    let f = clean_function_name("test_basic::test_unnamed_debug_vector::f");
    let n1 = names.detect_snapshot_name(&f, "test_basic", None, false);
    let n2 = names.detect_snapshot_name(&f, "test_basic", None, false);
    let n3 = names.detect_snapshot_name(&f, "test_basic", None, false);
    assert_eq!(n1, "unnamed_debug_vector");
    assert_eq!(n2, "unnamed_debug_vector-2");
    assert_eq!(n3, "unnamed_debug_vector-3");
    assert!(file_passes("[\n    1,\n    2,\n    3,\n]", &format!("{:#?}", vec![1, 2, 3])));
    assert!(file_passes("[\n    1,\n    2,\n    3,\n    4,\n]", &format!("{:#?}", vec![1, 2, 3, 4])));
    assert!(file_passes(
        "[\n    1,\n    2,\n    3,\n    4,\n    5,\n]",
        &format!("{:#?}", vec![1, 2, 3, 4, 5])
    ));
}

#[test]
fn test_unnamed_nested_closure() {
    let f = clean_function_name(
        "test_basic::test_unnamed_nested_closure::{{closure}}::{{closure}}::f",
    );
    assert_eq!(f, "test_basic::test_unnamed_nested_closure");
    let mut names = NameRegistry::new();
    let name = names.detect_snapshot_name(&f, "test_basic", None, false);
    assert_eq!(name, "unnamed_nested_closure");
    assert!(file_passes("[\n    1,\n    2,\n    3,\n]", &format!("{:#?}", vec![1, 2, 3])));
}

#[test]
fn test_json_vector() {
    assert_eq!(
        snapshot_file("test_basic", "tests/test_basic.rs", "json_vector"),
        comps("/ws/tests/snapshots/test_basic__json_vector.snap")
    );
    assert!(file_passes("[\n  1,\n  2,\n  3\n]", &to_string_pretty(&seq123())));
}

#[test]
fn test_unnamed_json_vector() {
    let mut names = NameRegistry::new();
    let n1 = names.detect_snapshot_name("test_basic::test_unnamed_json_vector", "test_basic", None, false);
    let n2 = names.detect_snapshot_name("test_basic::test_unnamed_json_vector", "test_basic", None, false);
    assert_eq!(n1, "unnamed_json_vector");
    assert_eq!(n2, "unnamed_json_vector-2");
    let v4 = Content::Sequence((1..=4).map(Content::I32).collect());
    let v5 = Content::Sequence((1..=5).map(Content::I32).collect());
    assert!(file_passes("[\n  1,\n  2,\n  3\n]", &to_string_pretty(&seq123())));
    assert!(file_passes("[\n  1,\n  2,\n  3,\n  4\n]", &to_string_pretty(&v4)));
    assert!(file_passes("[\n  1,\n  2,\n  3,\n  4,\n  5\n]", &to_string_pretty(&v5)));
    assert_eq!(to_string_compact(&v5), "[1, 2, 3, 4, 5]");
}

#[test]
fn test_nested_module() {
    let mut names = NameRegistry::new();
    let name = names.detect_snapshot_name("test_basic::nested::test_nested_module", "test_basic::nested", None, false);
    assert_eq!(name, "nested_module");
    assert_eq!(
        snapshot_file("test_basic::nested", "tests/test_basic.rs", &name),
        comps("/ws/tests/snapshots/test_basic__nested__nested_module.snap")
    );
    assert!(file_passes("aoeu", "aoeu"));
}

#[test]
fn test_trailing_commas() {
    let mut names = NameRegistry::new();
    let name = names.detect_snapshot_name("test_basic::test_trailing_commas", "test_basic", None, false);
    assert_eq!(name, "trailing_commas");
    assert!(file_passes("Testing", "Testing"));
    assert_eq!(
        snapshot_file("test_basic", "tests/test_basic.rs", "name"),
        comps("/ws/tests/snapshots/test_basic__name.snap")
    );
    assert!(file_passes("Testing", "Testing"));
}

#[test]
fn test_display() {
    assert_eq!(
        snapshot_file("test_basic", "tests/test_basic.rs", "display"),
        comps("/ws/tests/snapshots/test_basic__display.snap")
    );
    assert!(file_passes("TestDisplay struct", &format!("{}", "TestDisplay struct")));
}

#[test]
fn test_unnamed_display() {
    let mut names = NameRegistry::new();
    let n1 = names.detect_snapshot_name("test_basic::test_unnamed_display", "test_basic", None, false);
    let n2 = names.detect_snapshot_name("test_basic::test_unnamed_display", "test_basic", None, false);
    assert_eq!(n1, "unnamed_display");
    assert_eq!(n2, "unnamed_display-2");
    assert!(file_passes("TestDisplay struct", "TestDisplay struct"));
    assert!(file_passes("whatever", "whatever"));
}

#[test]
fn test_u128_json() {
    let x: u128 = u128::from(u64::MAX) * 2;
    assert!(inline_passes("36893488147419103230", &to_string_pretty(&Content::U128(x))));
}

#[test]
fn test_crlf() {
    assert!(file_passes("foo\nbar\nbaz", "foo\r\nbar\r\nbaz"));
}

#[test]
fn test_trailing_crlf() {
    assert!(file_passes("foo\nbar\nbaz\n", "foo\r\nbar\r\nbaz\r\n"));
}

#[test]
fn test_trailing_crlf_inline() {
    assert!(inline_passes("\n    foo\n    bar\n    baz\n    ", "foo\r\nbar\r\nbaz\r\n"));
}

#[test]
fn test_test_embedded_test() {
    assert_eq!(
        snapshot_file("insta::test", "src/test.rs", "embedded"),
        comps("/ws/src/snapshots/insta__test__embedded.snap")
    );
    assert!(file_passes("Just a string", "Just a string"));
}

#[test]
fn test_advanced_test_basic_duplicates_passes() {
    let mut records = DuplicateRecords::new();
    let mut inline = InlineDuplicates::new();
    records.enter();
    assert!(records.allow_duplicates());
    for x in (0..10).step_by(2) {
        let is_even = x % 2 == 0;
        let new = SnapshotContents::from_text(&format!("{:#?}", is_even));
        let key = "inline:test_advanced::test_basic_duplicates_passes|tests/test_advanced.rs|70";
        assert!(!records.conflicts(key, &new));
        records.record_snapshot_duplicate(key, &new);
        assert!(inline_passes("true", &format!("{:#?}", is_even)));
    }
    records.leave();
    assert!(!records.allow_duplicates());
    assert!(!inline.is_duplicate("f", "tests/test_advanced.rs", 70));
    inline.prevent_inline_duplicate("f", "tests/test_advanced.rs", 70);
    assert!(inline.is_duplicate("f", "tests/test_advanced.rs", 70));
}

#[test]
fn test_allow_duplicates_test_basic_duplicates_passes() {
    let mut records = DuplicateRecords::new();
    records.enter();
    for x in (0..10).step_by(2) {
        let is_even = x % 2 == 0;
        let new = SnapshotContents::from_text(&format!("{:#?}", is_even));
        let key = "inline:test_allow_duplicates::test_basic_duplicates_passes|tests/test_allow_duplicates.rs|8";
        assert!(!records.conflicts(key, &new));
        records.record_snapshot_duplicate(key, &new);
        assert!(inline_passes("true", &format!("{:#?}", is_even)));
    }
    let odd = SnapshotContents::from_text("false");
    assert!(records.conflicts(
        "inline:test_allow_duplicates::test_basic_duplicates_passes|tests/test_allow_duplicates.rs|8",
        &odd
    ));
    records.leave();
}

#[test]
fn test_snapshot_path() {
    let file = get_snapshot_filename(
        "test_settings",
        &comps("tests/test_settings.rs"),
        "snapshot_path",
        &comps("/ws"),
        false,
        &comps("snapshots2"),
        true,
    );
    assert_eq!(file, comps("/ws/tests/snapshots2/test_settings__snapshot_path.snap"));
    assert!(file_passes("[\n    1,\n    2,\n    3,\n]", &format!("{:#?}", vec![1, 2, 3])));
}

#[test]
fn test_snapshot_no_module_prepending() {
    let file = get_snapshot_filename(
        "test_settings",
        &comps("tests/test_settings.rs"),
        "snapshot_no_module_prepending",
        &comps("/ws"),
        false,
        &comps("snapshots"),
        false,
    );
    assert_eq!(file, comps("/ws/tests/snapshots/snapshot_no_module_prepending.snap"));
    assert!(file_passes("[\n    1,\n    2,\n    3,\n]", &format!("{:#?}", vec![1, 2, 3])));
}

#[test]
fn test_inline_snapshot_value_newline() {
    assert_eq!(insta::snapshot::get_inline_snapshot_value("\n"), "");
}

#[test]
fn common_prefix_of_sorted_paths() {
    let paths = vec![comps("/a/b/c/x.rs"), comps("/a/b/d/y.rs")];
    assert_eq!(find_common_prefix(&paths), Some(comps("/a/b")));
    let none = vec![comps("a/x"), comps("b/y")];
    assert_eq!(find_common_prefix(&none), None);
    assert_eq!(find_common_prefix(&[]), None);
}

#[test]
fn test_clash_detection() {
    // `INSTA_UPDATE=no`, `INSTA_FORCE_PASS=0`.
    let env = EnvVars {
        update: Some("no".to_string()),
        force_pass: Some("0".to_string()),
        ..no_env()
    };
    let cfg = ToolConfig::from_workspace(None, &env).unwrap();
    let mut names = NameRegistry::new();

    // The first assertion names its snapshot and fails, as it is missing.
    let first = "test_clash_detection::test_foo_always_missing";
    assert!(!names.clashes(first, "test_clash_detection", None));
    let name = names.detect_snapshot_name(first, "test_clash_detection", None, false);
    assert_eq!(name, "foo_always_missing");
    let new = SnapshotContents::from_text("42");
    let out = assert_snapshot(&cfg, None, &new, true, false, false, true, false);
    assert!(out.fail);

    // The second would take the same name from a function without the
    // `test_` prefix: a clash.
    let second = "test_clash_detection::foo_always_missing";
    assert!(names.clashes(second, "test_clash_detection", None));
}
