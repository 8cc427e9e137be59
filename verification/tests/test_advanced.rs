use insta::content::json::to_string_pretty;
use insta::content::Content;
use insta::env::{EnvVars, SnapshotUpdateBehavior, ToolConfig};
use insta::filters::{strip_ansi_escape_codes, Filters};
use insta::redaction::{PathItem, Selector};
use insta::runtime::{
    assertion_fail_fast, binary_extension_allowed, binary_file_name, binary_matches,
    finish_assertion, has_extension, is_pending_binary_file,
    matches_snapshot, BinarySnapshotValue, Comparator, DefaultComparator, GlobCollector, NameRegistry,
    SnapshotValue,
};
use insta::settings::Settings;
use insta::snapfile::{MetaData, Snapshot, TextSnapshotKind};
use insta::snapshot::SnapshotContents;

const TEXT: &str =
    "The sky above the port was the color of a television, tuned to a dead channel.";

fn full_match_config() -> ToolConfig {
    let env = EnvVars {
        require_full_match: Some("1".to_string()),
        force_pass: None,
        output: None,
        update: None,
        glob_fail_fast: None,
        test_runner: None,
        test_runner_fallback: None,
        force_update: None,
        force_update_snapshots: None,
    };
    ToolConfig::from_workspace(None, &env).unwrap()
}

fn text_snapshot(kind: TextSnapshotKind, metadata: MetaData) -> Snapshot {
    Snapshot::from_components(
        String::from("test"),
        None,
        metadata,
        SnapshotContents::from_text(TEXT),
    )
    .with_kind(kind)
}

#[test]
fn default_comparator_default_match() {
    let comparator = Box::new(DefaultComparator);
    let config = config();
    let a = text_snapshot(TextSnapshotKind::Inline, MetaData::default());
    let b = text_snapshot(TextSnapshotKind::Inline, MetaData::default());
    assert!(comparator.matches(&config, &a, &b));
    let config = full_match_config();
    assert!(config.require_full_match());
    assert!(comparator.matches(&config, &a, &b));
}

#[test]
fn default_comparator_exact_match() {
    let comparator = Box::new(DefaultComparator);
    let config = config();
    let a = text_snapshot(TextSnapshotKind::File, MetaData::default());
    let mut metadata = MetaData::default();
    metadata.description = Some(String::from("wintermute")); // Differs from None in a.
    let b = text_snapshot(TextSnapshotKind::Inline, metadata);

    // Comparing contents alone passes.
    assert!(comparator.matches(&config, &a, &b));

    let config = full_match_config();
    // Comparing contents alone still passes.
    assert!(comparator.matches(&config, &a, &a));
    // Comparing snapshots with differing metadata fails.
    assert!(!comparator.matches(&config, &a, &b));
}

#[test]
fn full_match_ignores_assertion_line_of_file_snapshots() {
    let config = full_match_config();
    let a = text_snapshot(TextSnapshotKind::File, MetaData::default());
    let mut metadata = MetaData::default();
    metadata.assertion_line = Some(42);
    let b = text_snapshot(TextSnapshotKind::File, metadata);
    assert!(DefaultComparator.matches(&config, &a, &b));
    // An inline reference ignores metadata altogether.
    let mut metadata = MetaData::default();
    metadata.expression = Some("x".to_string());
    let c = text_snapshot(TextSnapshotKind::File, metadata);
    let inline = text_snapshot(TextSnapshotKind::Inline, MetaData::default());
    assert!(!DefaultComparator.matches(&config, &a, &c));
    assert!(DefaultComparator.matches(&config, &inline, &c));
}

#[test]
fn test_runner_fallback_documented_key() {
    let cfg = Content::Mapping(vec![(
        Content::String("test".to_string()),
        Content::Mapping(vec![(
            Content::String("test_runner_fallback".to_string()),
            Content::Bool(true),
        )]),
    )]);
    let env = EnvVars {
        require_full_match: None,
        force_pass: None,
        output: None,
        update: None,
        glob_fail_fast: None,
        test_runner: None,
        test_runner_fallback: None,
        force_update: None,
        force_update_snapshots: None,
    };
    let c = ToolConfig::from_workspace(Some(Ok(cfg)), &env).unwrap();
    assert!(c.test_runner_fallback());
    assert!(!config().test_runner_fallback());
}

fn config() -> ToolConfig {
    let env = EnvVars {
        require_full_match: None,
        force_pass: None,
        output: None,
        update: None,
        glob_fail_fast: None,
        test_runner: None,
        test_runner_fallback: None,
        force_update: None,
        force_update_snapshots: None,
    };
    ToolConfig::from_workspace(None, &env).unwrap()
}

fn inline_matches(literal: &str, new: &str) -> bool {
    let old = SnapshotContents::from_inline(literal);
    let new = SnapshotContents::from_text(new);
    matches_snapshot(&config(), Some(&old), &new)
}

#[test]
fn test_basic_filter() {
    let mut filters = Filters::new();
    assert!(filters.try_add(r"\b[[:xdigit:]]{8}\b", "[SHORT_HEX]"));
    let filtered = filters.apply_to("Hello DEADBEEF!");
    assert_eq!(filtered, "Hello [SHORT_HEX]!");
    assert!(inline_matches("Hello [SHORT_HEX]!", &filtered));
}

#[test]
fn test_strip_ansi_escape_codes_setting() {
    let mut settings = Settings::new();
    settings.set_strip_ansi_escape_codes(true);
    let out = settings.filter_snapshot_text("\x1b[31mhello\x1b[0m world");
    assert!(inline_matches("hello world", &out));
}

#[test]
fn test_strip_ansi_escape_codes_with_filters() {
    // ANSI stripping happens before user-defined filters
    let mut settings = Settings::new();
    settings.set_strip_ansi_escape_codes(true);
    settings.set_filters(Filters::from_pairs(&[(r"\bhello\b", "[GREETING]")]));
    let out = settings.filter_snapshot_text("\x1b[32mhello\x1b[0m world");
    assert!(inline_matches("[GREETING] world", &out));
}

#[test]
fn test_strip_ansi_escape_codes_programmatic() {
    let mut settings = Settings::new();
    settings.set_strip_ansi_escape_codes(true);
    let out = settings.filter_snapshot_text(
        "\x1b[1m\x1b[31mERROR\x1b[0m: something \x1b[32mfailed\x1b[0m",
    );
    assert!(inline_matches("ERROR: something failed", &out));
}

#[test]
fn test_filters() {
    let mut filters = Filters::new();
    assert!(filters.try_add("\\bhello\\b", "[NAME]"));
    assert!(filters.try_add("(a)", "[$1]"));
    assert_eq!(filters.apply_to("hellohello hello abc"), "hellohello [NAME] [a]bc");
    assert!(!filters.try_add("(unclosed", "x"));
    assert!(Filters::try_from_pairs(&[("(", "x")]).is_none());
}

#[test]
fn test_selector_parser() {
    let cases = [
        (".foo.bar", "Selector {\n    selectors: [\n        [\n            Key(\n                \"foo\",\n            ),\n            Key(\n                \"bar\",\n            ),\n        ],\n    ],\n}"),
        (".foo[\"bar\"]", "Selector {\n    selectors: [\n        [\n            Key(\n                \"foo\",\n            ),\n            Key(\n                \"bar\",\n            ),\n        ],\n    ],\n}"),
        (".foo.bar[]", "Selector {\n    selectors: [\n        [\n            Key(\n                \"foo\",\n            ),\n            Key(\n                \"bar\",\n            ),\n            Range(\n                None,\n                None,\n            ),\n        ],\n    ],\n}"),
        (".foo.bar[:10]", "Selector {\n    selectors: [\n        [\n            Key(\n                \"foo\",\n            ),\n            Key(\n                \"bar\",\n            ),\n            Range(\n                None,\n                Some(\n                    10,\n                ),\n            ),\n        ],\n    ],\n}"),
        (".foo.bar[10:]", "Selector {\n    selectors: [\n        [\n            Key(\n                \"foo\",\n            ),\n            Key(\n                \"bar\",\n            ),\n            Range(\n                Some(\n                    10,\n                ),\n                None,\n            ),\n        ],\n    ],\n}"),
        (".foo.bar[10:20]", "Selector {\n    selectors: [\n        [\n            Key(\n                \"foo\",\n            ),\n            Key(\n                \"bar\",\n            ),\n            Range(\n                Some(\n                    10,\n                ),\n                Some(\n                    20,\n                ),\n            ),\n        ],\n    ],\n}"),
        (".foo.bar.**", "Selector {\n    selectors: [\n        [\n            Key(\n                \"foo\",\n            ),\n            Key(\n                \"bar\",\n            ),\n            DeepWildcard,\n        ],\n    ],\n}"),
    ];
    for (sel, expected) in cases {
        let parsed = Selector::parse(sel).unwrap();
        assert_eq!(format!("{:#?}", parsed), expected);
    }
}

#[test]
fn selector_errors() {
    assert!(Selector::parse("").is_err());
    assert!(Selector::parse("foo").is_err());
    assert!(Selector::parse(".**.**").is_err());
    assert!(Selector::parse(".a[").is_err());
    assert!(Selector::parse("., .a.b").is_ok());
}

fn binary(name_and_extension: &str) -> (Option<String>, String) {
    match SnapshotValue::binary(BinarySnapshotValue {
        name_and_extension,
        content: b"test".to_vec(),
    }) {
        SnapshotValue::Binary { name, extension, content } => {
            assert_eq!(content, b"test".to_vec());
            (name, extension)
        }
        _ => panic!("not a binary snapshot"),
    }
}

#[test]
fn test_binary_snapshot() {
    assert_eq!(binary(".txt"), (None, "txt".to_string()));
}

#[test]
fn test_multipart_extension() {
    assert_eq!(binary(".tar.gz"), (None, "tar.gz".to_string()));
}

#[test]
fn test_binary_test_named() {
    assert_eq!(binary("name.json"), (Some("name".to_string()), "json".to_string()));
}

/// A comparator that ignores whitespace differences.
struct WhitespaceInsensitiveComparator;

impl Comparator for WhitespaceInsensitiveComparator {
    fn matches(&self, _config: &ToolConfig, reference: &Snapshot, test: &Snapshot) -> bool {
        let a: String = reference.contents_str().split_whitespace().collect();
        let b: String = test.contents_str().split_whitespace().collect();
        a == b
    }
}

fn inline_snapshot(contents: SnapshotContents) -> Snapshot {
    Snapshot::from_components("test".to_string(), None, MetaData::default(), contents)
        .with_kind(TextSnapshotKind::Inline)
}

fn whitespace_insensitive_passes(literal: &str, new: &str) -> bool {
    let cfg = config();
    let old = inline_snapshot(SnapshotContents::from_inline(literal));
    let new = inline_snapshot(SnapshotContents::from_text(new));
    let pass = WhitespaceInsensitiveComparator.matches(&cfg, &old, &new);
    let out = finish_assertion(&cfg, pass, false, false, false, true, false);
    out.pass && !out.fail
}

#[test]
fn custom_comparator_matches() {
    assert!(whitespace_insensitive_passes("hello    world", "hello world"));
    assert!(!inline_matches("hello    world", "hello world"));
}

#[test]
fn custom_macro_passes() {
    assert!(whitespace_insensitive_passes("hello    world", "hello world"));
}

#[test]
fn test_matches_snapshot_matching_value() {
    let reference = SnapshotContents::from_text("hello world");
    let new = SnapshotContents::from_text("hello world");
    assert!(matches_snapshot(&config(), Some(&reference), &new));
}

#[test]
fn test_matches_snapshot_mismatching_value() {
    let reference = SnapshotContents::from_text("hello world");
    let new = SnapshotContents::from_text("goodbye world");
    assert!(!matches_snapshot(&config(), Some(&reference), &new));
    assert!(!matches_snapshot(&config(), None, &new));
}

#[test]
fn test_matches_snapshot_inline() {
    assert!(inline_matches("hello world", "hello world"));
    assert!(!inline_matches("hello world", "goodbye world"));
}

#[test]
fn test_matches_snapshot_inline_in_loop() {
    for _ in 0..3 {
        assert!(inline_matches("hello world", "hello world"));
        assert!(!inline_matches("hello world", "goodbye world"));
    }
}

#[test]
fn test_static_str_array_conversion() {
    let arr: [(&'static str, &'static str); 2] = [("a1", "b1"), ("a2", "b2")];
    let _ = Filters::from_pairs(&arr);
}

#[test]
fn test_vec_str_conversion() {
    let vec: Vec<(&str, &str)> = Vec::from([("a1", "b1"), ("a2", "b2")]);
    let _ = Filters::from_pairs(&vec);
}

#[test]
fn test_strip_ansi_escape_codes_basic() {
    assert_eq!(strip_ansi_escape_codes("\x1b[31mhello\x1b[0m"), "hello");
}

#[test]
fn test_strip_ansi_escape_codes_no_codes() {
    let plain = "hello world";
    let result = strip_ansi_escape_codes(plain);
    assert_eq!(result, "hello world");
}

#[test]
fn test_strip_ansi_escape_codes_multiple() {
    assert_eq!(
        strip_ansi_escape_codes("\x1b[1m\x1b[31mERROR\x1b[0m: something \x1b[32mfailed\x1b[0m"),
        "ERROR: something failed"
    );
}

#[test]
fn test_strip_ansi_escape_codes_256_color() {
    assert_eq!(strip_ansi_escape_codes("\x1b[38;5;196mred\x1b[0m"), "red");
}

#[test]
fn test_strip_ansi_escape_codes_rgb() {
    assert_eq!(
        strip_ansi_escape_codes("\x1b[38;2;255;0;0mred\x1b[0m"),
        "red"
    );
}

#[test]
fn test_range_checks() {
    assert_eq!(PathItem::Index(0, 10).range_check(None, Some(-1)), true);
    assert_eq!(PathItem::Index(9, 10).range_check(None, Some(-1)), false);
    assert_eq!(PathItem::Index(0, 10).range_check(Some(1), Some(-1)), false);
    assert_eq!(PathItem::Index(1, 10).range_check(Some(1), Some(-1)), true);
    assert_eq!(PathItem::Index(9, 10).range_check(Some(1), Some(-1)), false);
    assert_eq!(PathItem::Index(0, 10).range_check(Some(1), None), false);
    assert_eq!(PathItem::Index(1, 10).range_check(Some(1), None), true);
    assert_eq!(PathItem::Index(9, 10).range_check(Some(1), None), true);
}

#[test]
fn test_basic_suffixes() {
    let mut names = NameRegistry::new();
    for value in [1, 2, 3] {
        let mut settings = Settings::new();
        settings.set_snapshot_suffix(&value.to_string());
        let name = names.detect_snapshot_name(
            "test_advanced::test_basic_suffixes",
            "test_advanced",
            settings.snapshot_suffix(),
            false,
        );
        assert_eq!(name, format!("basic_suffixes@{value}"));
        let json = to_string_pretty(&Content::I32(value));
        let stored = SnapshotContents::from_text(&value.to_string());
        assert!(matches_snapshot(&config(), Some(&stored), &SnapshotContents::from_text(&json)));
    }
}

#[test]
fn test_matches_snapshot_applies_filters() {
    let mut settings = Settings::new();
    settings.add_filter(r"PID-\d+", "PID-<masked>");
    // Reference stored with the filter applied.
    let stored = settings.filter_snapshot_text("pid=PID-12345");
    assert_eq!(stored, "pid=PID-<masked>");
    let reference = SnapshotContents::from_text(&stored);
    // A raw value carrying a different PID still matches once filtered.
    let new = SnapshotContents::from_text(&settings.filter_snapshot_text("pid=PID-99999"));
    assert!(matches_snapshot(&config(), Some(&reference), &new));
}

#[test]
fn binary_extensions_for_review_are_refused() {
    assert!(!binary_extension_allowed("new"));
    assert!(!binary_extension_allowed("new.gz"));
    assert!(binary_extension_allowed("newer"));
    assert!(binary_extension_allowed("tar.gz"));
    assert!(binary_extension_allowed(""));
    assert!(has_extension(".new"));
    assert!(has_extension("name.json"));
    assert!(!has_extension("test"));
}

#[test]
fn glob_runs_count_failures_and_hints() {
    assert!(assertion_fail_fast(None));
    let mut run = GlobCollector::new(false);
    assert!(!assertion_fail_fast(Some(&run)));
    let s = run.summary();
    assert_eq!((s.failures, s.review_hint, s.fail_fast_hint), (0, false, false));
    run.record_failure(SnapshotUpdateBehavior::NoUpdate, true);
    let s = run.summary();
    assert_eq!((s.failures, s.review_hint, s.fail_fast_hint), (1, false, false));
    run.record_failure(SnapshotUpdateBehavior::NewFile, false);
    assert!(!run.show_insta_hint);
    run.record_failure(SnapshotUpdateBehavior::NewFile, true);
    let s = run.summary();
    assert_eq!((s.failures, s.review_hint, s.fail_fast_hint), (3, true, true));
    assert!(assertion_fail_fast(Some(&GlobCollector::new(true))));
}

#[test]
fn binary_snapshot_files_are_named_after_the_metadata_file() {
    assert_eq!(binary_file_name("test_binary__x.snap", "png"), "test_binary__x.snap.png");
    assert_eq!(binary_file_name("a.snap.new", "tar.gz"), "a.snap.new.tar.gz");
    assert!(is_pending_binary_file("a.snap", "a.snap.new.png"));
    assert!(!is_pending_binary_file("a.snap", "a.snap.png"));
    assert!(!is_pending_binary_file("a.snap", "a.snap.new"));
    assert!(binary_matches(Some(b"abc"), b"abc"));
    assert!(!binary_matches(Some(b"abc"), b"abd"));
    assert!(!binary_matches(None, b""));
}

#[test]
fn test_matches_snapshot_missing_reference() {
    // No reference exists yet: no match, and nothing to write.
    let new = SnapshotContents::from_text("anything");
    assert!(!matches_snapshot(&config(), None, &new));
}
