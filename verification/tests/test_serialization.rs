use insta::content::order::{
    compare_keys, key_sorts_before, partial_compare, sort_value, sorted_maps, widen_f32_bits, Key,
    Order,
};
use insta::content::{Content, Float32, Float64};
use insta::env::{known_workspace_root, EnvVars, ToolConfig, Workspace};
use insta::redaction::{sorted_redaction, Redaction};
use insta::runtime::{assert_snapshot, NameRegistry};
use insta::serialization::{
    can_render, prepare_content, serialize_content, trim_final_newline, try_serialize_content,
    SerializationFormat,
};
use insta::settings::Settings;
use insta::snapshot::SnapshotContents;

fn config() -> ToolConfig {
    let env = EnvVars {
        require_full_match: None,
        force_pass: None,
        output: None,
        update: None,
        glob_fail_fast: None,
        test_runner: None,
        test_runner_fallback: None,
        force_update: None,
        force_update_snapshots: None,
    };
    ToolConfig::from_workspace(None, &env).unwrap()
}

fn file_passes(stored: &str, new: &str) -> bool {
    let cfg = config();
    let old = SnapshotContents::from_text(stored);
    let new = SnapshotContents::from_text(new);
    let out = assert_snapshot(&cfg, Some(&old), &new, true, true, false, true, false);
    out.pass && !out.fail && out.update.is_none()
}

fn inline_passes(literal: &str, new: &str) -> bool {
    let cfg = config();
    let old = SnapshotContents::from_inline(literal);
    let new = SnapshotContents::from_text(new);
    let out = assert_snapshot(&cfg, Some(&old), &new, false, false, false, true, false);
    out.pass && !out.fail
}

fn s(v: &str) -> Content {
    Content::String(v.to_string())
}

fn ints(n: i32) -> Content {
    Content::Sequence((1..=n).map(Content::I32).collect())
}

fn yaml(c: Content) -> String {
    serialize_content(c, SerializationFormat::Yaml, &Settings::new())
}

#[test]
fn test_yaml_vector() {
    assert!(file_passes("- 1\n- 2\n- 3", &yaml(ints(3))));
}

#[test]
fn test_unnamed_yaml_vector() {
    let mut names = NameRegistry::new();
    let n1 = names.detect_snapshot_name("test_basic::test_unnamed_yaml_vector", "test_basic", None, false);
    let n2 = names.detect_snapshot_name("test_basic::test_unnamed_yaml_vector", "test_basic", None, false);
    let n3 = names.detect_snapshot_name("test_basic::test_unnamed_yaml_vector", "test_basic", None, false);
    assert_eq!(n1, "unnamed_yaml_vector");
    assert_eq!(n2, "unnamed_yaml_vector-2");
    assert_eq!(n3, "unnamed_yaml_vector-3");
    assert!(file_passes("- 1\n- 2\n- 3", &yaml(ints(3))));
    assert!(file_passes("- 1\n- 2\n- 3\n- 4", &yaml(ints(4))));
    assert!(file_passes("- 1\n- 2\n- 3\n- 4\n- 5", &yaml(ints(5))));
}

fn pair(a: i32, b: i32) -> Content {
    Content::Tuple(vec![Content::I32(a), Content::I32(b)])
}

#[test]
fn insta_sort_order() {
    let m = Content::Mapping(vec![
        (pair(9, 3), Content::I32(4)),
        (pair(2, 3), Content::I32(4)),
        (pair(1, 4), Content::I32(4)),
        (pair(3, 3), Content::I32(4)),
        (pair(1, 3), Content::I32(4)),
    ]);
    let mut settings = Settings::new();
    settings.set_sort_maps(true);
    let out = serialize_content(m, SerializationFormat::Yaml, &settings);
    assert_eq!(
        out,
        "? - 1\n  - 3\n: 4\n? - 1\n  - 4\n: 4\n? - 2\n  - 3\n: 4\n? - 3\n  - 3\n: 4\n? - 9\n  - 3\n: 4\n"
    );
}

#[test]
fn test_settings_macro() {
    let map = Content::Mapping(vec![
        (s("c"), s("third value")),
        (s("a"), s("first value")),
        (s("d"), s("fourth value")),
        (s("b"), s("second value")),
    ]);
    let mut settings = Settings::new();
    settings.set_sort_maps(true);
    let out = serialize_content(map, SerializationFormat::Yaml, &settings);
    assert!(inline_passes(
        "\n        a: first value\n        b: second value\n        c: third value\n        d: fourth value\n        ",
        &out
    ));
}

#[test]
fn test_snapshot_with_description() {
    let mut settings = Settings::new();
    settings.set_description("The snapshot is three integers");
    assert_eq!(settings.description(), Some("The snapshot is three integers"));
    assert!(file_passes("[\n    1,\n    2,\n    3,\n]", &format!("{:#?}", vec![1, 2, 3])));
    settings.remove_description();
    assert_eq!(settings.description(), None);
}

#[test]
fn maps_stay_unsorted_by_default() {
    let map = Content::Mapping(vec![(s("b"), Content::I32(1)), (s("a"), Content::I32(2))]);
    assert_eq!(yaml(map), "b: 1\na: 2\n");
}

#[test]
fn sort_is_stable_and_by_key_kind() {
    let map = Content::Mapping(vec![
        (s("x"), Content::I32(1)),
        (Content::Bool(true), Content::I32(2)),
        (Content::U64(7), Content::I32(3)),
        (s("x"), Content::I32(4)),
        (Content::I64(-1), Content::I32(5)),
        (Content::U16(3), Content::I32(6)),
    ]);
    match sorted_maps(&map) {
        Content::Mapping(es) => {
            let values: Vec<i32> = es
                .iter()
                .map(|(_, v)| match v {
                    Content::I32(n) => *n,
                    _ => panic!("unexpected value"),
                })
                .collect();
            assert_eq!(values, vec![2, 6, 3, 5, 1, 4]);
        }
        _ => panic!("not a map"),
    }
}

#[test]
fn nested_maps_are_sorted() {
    let inner = Content::Mapping(vec![(s("z"), Content::I32(1)), (s("y"), Content::I32(2))]);
    let outer = Content::Sequence(vec![Content::Wrapped(Box::new(inner))]);
    let mut settings = Settings::new();
    settings.set_sort_maps(true);
    let out = serialize_content(outer, SerializationFormat::JsonCompact, &settings);
    assert_eq!(out, "[{\"y\": 2, \"z\": 1}]");
}

fn f64c(bits: u64, display: &str) -> Content {
    Content::F64(Float64 { bits, display: display.to_string() })
}

#[test]
fn float_keys_sort_by_total_order() {
    let neg = f64c((-1.5f64).to_bits(), "-1.5");
    let pos = f64c(2.0f64.to_bits(), "2.0");
    let nan = f64c(f64::NAN.to_bits(), "NaN");
    assert!(key_sorts_before(&neg, &pos));
    assert!(key_sorts_before(&pos, &nan));
    assert!(!key_sorts_before(&nan, &pos));
}

#[test]
fn structural_order_of_floats_has_no_nan() {
    let nan = f64c(f64::NAN.to_bits(), "NaN");
    let one = f64c(1.0f64.to_bits(), "1.0");
    let a = Content::Tuple(vec![nan]);
    let b = Content::Tuple(vec![one]);
    assert!(partial_compare(&a, &b).is_none());
    assert!(!key_sorts_before(&a, &b));
    assert!(!key_sorts_before(&b, &a));
    let zero = f64c(0.0f64.to_bits(), "0.0");
    let negzero = f64c((-0.0f64).to_bits(), "-0.0");
    assert!(matches!(partial_compare(&zero, &negzero), Some(Order::Equal)));
}

#[test]
fn structural_order_goes_by_variant_first() {
    let a = Content::U8(200);
    let b = s("a");
    assert!(matches!(partial_compare(&a, &b), Some(Order::Less)));
    assert!(key_sorts_before(&a, &b));
    let short = ints(2);
    let long = ints(3);
    assert!(matches!(partial_compare(&short, &long), Some(Order::Less)));
}

#[test]
fn keys_compare_by_kind_then_value() {
    assert!(matches!(compare_keys(&Key::Str("b"), &Key::Str("ab")), Order::Greater));
    assert!(matches!(compare_keys(&Key::Bool(true), &Key::U64(0)), Order::Less));
    assert!(matches!(compare_keys(&Key::Bytes(&[1, 2]), &Key::Bytes(&[1, 2])), Order::Equal));
}

#[test]
fn f32_bits_widen_to_f64_bits() {
    assert_eq!(widen_f32_bits(1.0f32.to_bits()), 1.0f64.to_bits());
    assert_eq!(widen_f32_bits((-2.5f32).to_bits()), (-2.5f64).to_bits());
    let tiny = f32::from_bits(1);
    assert_eq!(widen_f32_bits(1), (tiny as f64).to_bits());
    assert_eq!(widen_f32_bits(f32::INFINITY.to_bits()), f64::INFINITY.to_bits());
    assert_eq!(widen_f32_bits(0x7f80_0001), 0x7ff8_0000_2000_0000);
    let f = Content::F32(Float32 { bits: 0.5f32.to_bits(), display: "0.5".to_string() });
    assert!(matches!(f.as_key(), Key::F64(b) if b == 0.5f64.to_bits()));
}

#[test]
fn redactions_of_settings_are_applied() {
    let mut settings = Settings::new();
    assert!(settings.try_add_redaction(".id", Redaction::Static(s("[id]"))));
    assert!(!settings.try_add_redaction("[", Redaction::Static(s("[x]"))));
    let value = Content::Struct(
        "User".to_string(),
        vec![("id".to_string(), Content::U64(42)), ("name".to_string(), s("bob"))],
    );
    let out = serialize_content(value, SerializationFormat::Json, &settings);
    assert_eq!(out, "{\n  \"id\": \"[id]\",\n  \"name\": \"bob\"\n}");
}

#[test]
fn prepared_content_is_redacted_after_sorting() {
    let mut settings = Settings::new();
    settings.set_sort_maps(true);
    settings.add_redaction("[0]", Redaction::Static(s("first")));
    let value = Content::Sequence(vec![Content::I32(1), Content::I32(2)]);
    let out = prepare_content(value, &settings);
    let json = serialize_content(out, SerializationFormat::JsonCompact, &Settings::new());
    assert_eq!(json, "[\"first\", 2]");
}

#[test]
fn json_refuses_maps_with_unwritable_keys() {
    let map = Content::Mapping(vec![(ints(1), Content::I32(1))]);
    assert!(!can_render(&map, SerializationFormat::Json));
    assert!(can_render(&map, SerializationFormat::Yaml));
    assert!(!can_render(&map, SerializationFormat::Csv));
    assert_eq!(try_serialize_content(map, SerializationFormat::Json, &Settings::new()), None);
    let ok = Content::Mapping(vec![(Content::I32(1), s("x"))]);
    assert_eq!(
        try_serialize_content(ok, SerializationFormat::JsonCompact, &Settings::new()),
        Some("{\"1\": \"x\"}".to_string())
    );
}

#[test]
fn final_newline_is_trimmed_once() {
    assert_eq!(trim_final_newline("a,b\n1,2\n"), "a,b\n1,2");
    assert_eq!(trim_final_newline("x\n\n"), "x\n");
    assert_eq!(trim_final_newline("x"), "x");
    assert_eq!(trim_final_newline(""), "");
}

#[test]
fn workspace_root_without_cargo() {
    assert_eq!(
        known_workspace_root(Some("/run"), Workspace::UseAsIs("/static")),
        Some("/run".to_string())
    );
    assert_eq!(
        known_workspace_root(None, Workspace::UseAsIs("/tmp/insta_workspace_root")),
        Some("/tmp/insta_workspace_root".to_string())
    );
    assert_eq!(known_workspace_root(None, Workspace::DetectWithCargo("/crate")), None);
}

#[test]
fn sorted_redaction_sorts_matched_values() {
    let mut settings = Settings::new();
    settings.add_redaction(".tags", sorted_redaction());
    let value = Content::Struct(
        "Item".to_string(),
        vec![
            (
                "tags".to_string(),
                Content::Sequence(vec![s("pear"), s("apple"), s("fig")]),
            ),
            ("other".to_string(), Content::Sequence(vec![s("b"), s("a")])),
        ],
    );
    let out = serialize_content(value, SerializationFormat::JsonCompact, &settings);
    assert_eq!(out, "{\"tags\": [\"apple\", \"fig\", \"pear\"], \"other\": [\"b\", \"a\"]}");
}

#[test]
fn sorted_redaction_sorts_fields_and_keeps_wrappers() {
    let value = Content::Wrapped(Box::new(Content::Struct(
        "S".to_string(),
        vec![("b".to_string(), Content::I32(1)), ("a".to_string(), Content::I32(2))],
    )));
    match sort_value(value) {
        Content::Wrapped(inner) => match *inner {
            Content::Struct(_, fields) => {
                let names: Vec<&str> = fields.iter().map(|(n, _)| n.as_str()).collect();
                assert_eq!(names, vec!["a", "b"]);
            }
            _ => panic!("not a struct"),
        },
        _ => panic!("wrapper lost"),
    }
    let tuple = Content::Tuple(vec![Content::I32(2), Content::I32(1)]);
    assert!(matches!(sort_value(tuple), Content::Tuple(ref v) if matches!(v[0], Content::I32(2))));
}

fn env_cmdline() -> Content {
    Content::Mapping(vec![
        (s("env"), Content::Sequence(vec![s("ENVIRONMENT"), s("production")])),
        (s("cmdline"), Content::Sequence(vec![s("my-tool"), s("run")])),
    ])
}

#[test]
fn test_yaml_serialization() {
    let yaml = yaml(env_cmdline());
    assert!(inline_passes(
        r"
    env:
      - ENVIRONMENT
      - production
    cmdline:
      - my-tool
      - run
    ",
        &yaml
    ));

    let inline_yaml = serialize_content(env_cmdline(), SerializationFormat::Yaml, &Settings::new());
    assert!(inline_passes(
        r"
    env:
      - ENVIRONMENT
      - production
    cmdline:
      - my-tool
      - run
    ",
        &inline_yaml
    ));
}

fn unsorted_map() -> Content {
    Content::Mapping(vec![
        (s("c"), s("third value")),
        (s("a"), s("first value")),
        (s("d"), s("fourth value")),
        (s("b"), s("second value")),
    ])
}

#[test]
fn test_simple() {
    let mut settings = Settings::new();
    settings.set_sort_maps(true);
    let out = serialize_content(unsorted_map(), SerializationFormat::Yaml, &settings);
    assert!(inline_passes(
        r"
        a: first value
        b: second value
        c: third value
        d: fourth value
        ",
        &out
    ));
}

#[test]
fn test_bound_to_scope() {
    {
        let mut settings = Settings::new();
        settings.set_sort_maps(true);
        let out = serialize_content(unsorted_map(), SerializationFormat::Yaml, &settings);
        assert!(inline_passes(
            r"
        a: first value
        b: second value
        c: third value
        d: fourth value
        ",
            &out
        ));
    }
    // Outside the scope the default settings hold again.
    assert!(!Settings::new().sort_maps());
}

fn env_info() -> Content {
    Content::Mapping(vec![
        (s("env"), Content::Sequence(vec![s("ENVIRONMENT"), s("production")])),
        (s("cmdline"), Content::Sequence(vec![s("my-tool"), s("run")])),
    ])
}

#[test]
fn test_snapshot_with_description_and_raw_info() {
    let mut settings = Settings::new();
    settings.set_description("The snapshot is four integers");
    settings.set_info(&env_info());
    assert_eq!(settings.description(), Some("The snapshot is four integers"));
    assert!(settings.has_info());
    assert!(file_passes(
        "[\n    1,\n    2,\n    3,\n    4,\n]",
        &format!("{:#?}", vec![1, 2, 3, 4])
    ));
}

#[test]
fn test_snapshot_with_description_and_info() {
    // The info a serialized `Info { env, cmdline }` gives.
    let info = Content::Struct(
        "Info".to_string(),
        vec![
            (
                "env".to_string(),
                Content::Mapping(vec![(s("ENVIRONMENT"), s("production"))]),
            ),
            ("cmdline".to_string(), Content::Sequence(vec![s("my-tool"), s("run")])),
        ],
    );
    let mut settings = Settings::new();
    settings.set_description("The snapshot is four integers");
    settings.set_info(&info);
    assert_eq!(settings.description(), Some("The snapshot is four integers"));
    assert!(settings.has_info());
    assert!(file_passes(
        "[\n    1,\n    2,\n    3,\n    4,\n]",
        &format!("{:#?}", vec![1, 2, 3, 4])
    ));
}

#[test]
fn test_with_settings_inherit() {
    let mut outer = Settings::new();
    outer.set_sort_maps(true);
    let mut inner = outer.clone();
    inner.set_description("aha");
    assert!(inner.sort_maps());
    assert_eq!(inner.description(), Some("aha"));
}
