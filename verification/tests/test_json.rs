use insta::content::json::{to_string, to_string_compact, to_string_pretty, COMPACT_MAX_CHARS};
use insta::content::{Content, Float32, Float64};
use insta::env::{EnvVars, ToolConfig};
use insta::runtime::assert_snapshot;
use insta::snapshot::SnapshotContents;

fn no_env() -> EnvVars {
    EnvVars {
        require_full_match: None,
        force_pass: None,
        output: None,
        update: None,
        glob_fail_fast: None,
        test_runner: None,
        test_runner_fallback: None,
        force_update: None,
        force_update_snapshots: None,
    }
}

/// Whether a value matches an inline snapshot literal, as an inline
/// assertion decides it.
fn inline_passes(literal: &str, new: &str) -> bool {
    let cfg = ToolConfig::from_workspace(None, &no_env()).unwrap();
    let old = SnapshotContents::from_inline(literal);
    let new = SnapshotContents::from_text(new);
    let out = assert_snapshot(&cfg, Some(&old), &new, false, false, false, true, false);
    out.pass && !out.fail
}

fn s(v: &str) -> Content {
    Content::String(v.to_string())
}

fn u(n: u32) -> Content {
    Content::U32(n)
}

fn st(name: &str, fields: Vec<(&str, Content)>) -> Content {
    Content::Struct(
        name.to_string(),
        fields.into_iter().map(|(k, v)| (k.to_string(), v)).collect(),
    )
}

fn f32c(v: f32) -> Content {
    Content::F32(Float32 { bits: v.to_bits(), display: v.to_string() })
}

fn f64c(v: f64) -> Content {
    Content::F64(Float64 { bits: v.to_bits(), display: v.to_string() })
}

fn environments() -> Content {
    Content::Mapping(vec![
        (s("environments"), Content::Sequence(vec![s("development"), s("production")])),
        (s("cmdline"), Content::Sequence(vec![])),
        (s("extra"), Content::Mapping(vec![])),
    ])
}

#[test]
fn test_to_string() {
    let json = to_string(&environments());
    assert!(inline_passes(
        r#"{"environments":["development","production"],"cmdline":[],"extra":{}}"#,
        &json
    ));
    assert_eq!(json, r#"{"environments":["development","production"],"cmdline":[],"extra":{}}"#);
}

#[test]
fn test_to_string_pretty() {
    let json = to_string_pretty(&environments());
    assert!(inline_passes(
        r#"
    {
      "environments": [
        "development",
        "production"
      ],
      "cmdline": [],
      "extra": {}
    }
    "#,
        &json
    ));
}

#[test]
fn test_to_string_compact() {
    let content = Content::Mapping(vec![
        (s("pos"), Content::Sequence(vec![u(0), u(14134)])),
        (s("rule"), s("file")),
    ]);
    assert!(inline_passes(
        r#"{"pos": [0, 14134], "rule": "file"}"#,
        &to_string_compact(&content)
    ));
}

#[test]
fn test_to_string_compact_nested() {
    let pair = |rule: &str| {
        st(
            "Pair",
            vec![
                ("pos", Content::Sequence(vec![u(0), u(14134)])),
                ("rule", s(rule)),
            ],
        )
    };
    let content = st(
        "File",
        vec![
            ("pos", Content::Sequence(vec![u(0), u(14134)])),
            (
                "pairs",
                Content::Sequence(vec![
                    pair("file"),
                    pair("version"),
                    pair("new_symbols"),
                    pair("bit_timing"),
                    pair("nodes"),
                    pair("value_tables"),
                ]),
            ),
            ("empty_array", Content::Sequence(vec![])),
            ("empty_object", Content::Mapping(vec![])),
            ("bytes", Content::Bytes(b"hehe".to_vec())),
            (
                "some",
                Content::Wrapped(Box::new(Content::Sequence(vec![u(1), u(2)]))),
            ),
            (
                "newtype_variant",
                Content::NewtypeVariant(
                    "Enum".to_string(),
                    0,
                    "variant_a".to_string(),
                    Box::new(st("Inner", vec![("a", u(1)), ("b", Content::Nothing)])),
                ),
            ),
            (
                "tuple_variant",
                Content::TupleVariant(
                    "Enum".to_string(),
                    1,
                    "variant_b".to_string(),
                    vec![s("a"), u(1)],
                ),
            ),
            (
                "struct_variant",
                Content::StructVariant(
                    "Enum".to_string(),
                    2,
                    "variant_c".to_string(),
                    vec![("x".to_string(), u(1))],
                ),
            ),
        ],
    );
    assert!(inline_passes(
        r#"
    {
      "pos": [0, 14134],
      "pairs": [
        {"pos": [0, 14134], "rule": "file"},
        {"pos": [0, 14134], "rule": "version"},
        {"pos": [0, 14134], "rule": "new_symbols"},
        {"pos": [0, 14134], "rule": "bit_timing"},
        {"pos": [0, 14134], "rule": "nodes"},
        {"pos": [0, 14134], "rule": "value_tables"}
      ],
      "empty_array": [],
      "empty_object": {},
      "bytes": [104, 101, 104, 101],
      "some": [1, 2],
      "newtype_variant": {"variant_a": {"a": 1, "b": null}},
      "tuple_variant": {"variant_b": ["a", 1]},
      "struct_variant": {"variant_c": {"x": 1}}
    }
    "#,
        &to_string_compact(&content)
    ));
}

#[test]
fn test_to_string_compact_line_width() {
    // 24 one-character strings render to exactly 120 characters, which fits
    // on one line.  One more and the array is expanded like the pretty format.
    let fits = Content::Sequence((0..24).map(|_| s("a")).collect());
    let line = to_string_compact(&fits);
    assert_eq!(line.chars().count(), COMPACT_MAX_CHARS);
    assert!(!line.contains('\n'));
    let too_long = Content::Sequence((0..25).map(|_| s("a")).collect());
    assert_eq!(to_string_compact(&too_long), to_string_pretty(&too_long));

    // Inside an expanded container the indentation and the trailing comma
    // count against the limit as well.
    let inner = || Content::Sequence(vec![s(&"x".repeat(114))]);
    let content = Content::Sequence(vec![inner(), inner()]);
    let rendered = to_string_compact(&content);
    for line in rendered.lines() {
        assert!(line.chars().count() <= COMPACT_MAX_CHARS);
    }
    assert!(inline_passes(
        r#"
    [
      [
        "xxxxxxxxxxxxxxxxxxxxxxxxxxxxxxxxxxxxxxxxxxxxxxxxxxxxxxxxxxxxxxxxxxxxxxxxxxxxxxxxxxxxxxxxxxxxxxxxxxxxxxxxxxxxxxxxxx"
      ],
      ["xxxxxxxxxxxxxxxxxxxxxxxxxxxxxxxxxxxxxxxxxxxxxxxxxxxxxxxxxxxxxxxxxxxxxxxxxxxxxxxxxxxxxxxxxxxxxxxxxxxxxxxxxxxxxxxxxx"]
    ]
    "#,
        &rendered
    ));
}

#[test]
fn test_to_string_num_keys() {
    let content = Content::Mapping(vec![
        (u(42), Content::Bool(true)),
        (Content::I32(-23), Content::Bool(false)),
    ]);
    assert!(inline_passes(
        r#"
    {
      "42": true,
      "-23": false
    }
    "#,
        &to_string_pretty(&content)
    ));
}

#[test]
fn test_to_string_unit_variant_keys() {
    let content = Content::Mapping(vec![
        (
            Content::UnitVariant("MyEnum".to_string(), 0, "A".to_string()),
            Content::Bool(true),
        ),
        (
            Content::UnitVariant("MyEnum".to_string(), 1, "B".to_string()),
            Content::Bool(false),
        ),
    ]);
    assert!(inline_passes(
        r#"
    {
      "A": true,
      "B": false
    }
    "#,
        &to_string_pretty(&content)
    ));
}

fn crazy_string() -> Content {
    Content::String((0u8..=126).map(|x| x as char).collect())
}

fn scalars() -> Vec<(Content, Content)> {
    vec![
        (
            s("array_of_objects"),
            Content::Sequence(vec![st("MyType", vec![("foo", s("bar")), ("bar", s("xxx"))])]),
        ),
        (
            s("unit_variant"),
            Content::UnitVariant("Stuff".to_string(), 0, "value".to_string()),
        ),
        (s("u8"), Content::U8(8)),
        (s("u16"), Content::U16(16)),
        (s("u32"), Content::U32(32)),
        (s("u64"), Content::U64(64)),
        (s("u128"), Content::U128(128)),
        (s("i8"), Content::I8(8)),
        (s("i16"), Content::I16(16)),
        (s("i32"), Content::I32(32)),
        (s("i64"), Content::I64(64)),
        (s("i128"), Content::I128(128)),
        (s("f32"), f32c(32.0)),
        (s("f64"), f64c(64.0)),
        (s("char"), Content::Char('A')),
        (s("bytes"), Content::Bytes(b"hehe".to_vec())),
        (s("null"), Content::Nothing),
        (s("unit"), Content::Unit),
        (s("crazy_string"), crazy_string()),
    ]
}

const SCALARS_PRETTY: &str = r##"
      "array_of_objects": [
        {
          "foo": "bar",
          "bar": "xxx"
        }
      ],
      "unit_variant": "value",
      "u8": 8,
      "u16": 16,
      "u32": 32,
      "u64": 64,
      "u128": 128,
      "i8": 8,
      "i16": 16,
      "i32": 32,
      "i64": 64,
      "i128": 128,
      "f32": 32.0,
      "f64": 64.0,
      "char": "A",
      "bytes": [
        104,
        101,
        104,
        101
      ],
      "null": null,
      "unit": null,
      "crazy_string": "\u0000\u0001\u0002\u0003\u0004\u0005\u0006\u0007\b\t\n\u000b\f\r\u000e\u000f\u0010\u0011\u0012\u0013\u0014\u0015\u0016\u0017\u0018\u0019\u001a\u001b\u001c\u001d\u001e\u001f !\"#$%&'()*+,-./0123456789:;<=>?@ABCDEFGHIJKLMNOPQRSTUVWXYZ[\\]^_`abcdefghijklmnopqrstuvwxyz{|}~"
    }
    "##;

#[test]
fn test_to_string_pretty_complex() {
    let mut entries = vec![
        (
            s("is_alive"),
            Content::NewtypeStruct("Some".to_string(), Box::new(Content::Bool(true))),
        ),
        (
            s("newtype_variant"),
            Content::NewtypeVariant(
                "Foo".to_string(),
                0,
                "variant_a".to_string(),
                Box::new(st("VariantA", vec![("field_a", s("value_a")), ("field_b", u(42))])),
            ),
        ),
        (
            s("struct_variant"),
            Content::StructVariant(
                "Foo".to_string(),
                0,
                "variant_b".to_string(),
                vec![
                    ("field_a".to_string(), s("value_a")),
                    ("field_b".to_string(), u(42)),
                ],
            ),
        ),
        (
            s("tuple_variant"),
            Content::TupleVariant(
                "Foo".to_string(),
                0,
                "variant_c".to_string(),
                vec![s("value_a"), u(42)],
            ),
        ),
        (s("empty_array"), Content::Sequence(vec![])),
        (s("empty_object"), Content::Mapping(vec![])),
        (s("array"), Content::Sequence(vec![Content::Bool(true)])),
        (s("object"), Content::Mapping(vec![(s("foo"), Content::Bool(true))])),
    ];
    entries.extend(scalars());
    let json = to_string_pretty(&Content::Mapping(entries));
    let expected = r##"
    {
      "is_alive": true,
      "newtype_variant": {
        "variant_a": {
          "field_a": "value_a",
          "field_b": 42
        }
      },
      "struct_variant": {
        "variant_b": {
          "field_a": "value_a",
          "field_b": 42
        }
      },
      "tuple_variant": {
        "variant_c": [
          "value_a",
          42
        ]
      },
      "empty_array": [],
      "empty_object": {},
      "array": [
        true
      ],
      "object": {
        "foo": true
      },"##
        .to_string()
        + SCALARS_PRETTY;
    assert!(inline_passes(&expected, &json));

    // The same value without the variants, as the earlier release wrote it.
    let mut entries = vec![
        (
            s("is_alive"),
            Content::NewtypeStruct("Some".to_string(), Box::new(Content::Bool(true))),
        ),
        (s("empty_array"), Content::Sequence(vec![])),
        (s("empty_object"), Content::Mapping(vec![])),
        (s("array"), Content::Sequence(vec![Content::Bool(true)])),
        (s("object"), Content::Mapping(vec![(s("foo"), Content::Bool(true))])),
    ];
    entries.extend(scalars());
    let json = to_string_pretty(&Content::Mapping(entries));
    let expected = r##"
    {
      "is_alive": true,
      "empty_array": [],
      "empty_object": {},
      "array": [
        true
      ],
      "object": {
        "foo": true
      },"##
        .to_string()
        + SCALARS_PRETTY;
    assert!(inline_passes(&expected, &json));
}

#[test]
fn condensed_json_is_one_line() {
    let value = Content::Mapping(vec![
        (s("text"), s("line one\nline two\r\n")),
        (s("nested"), Content::Sequence(vec![s("a\nb"), u(1), Content::Nothing])),
        (s("control"), s("\u{1}")),
    ]);
    let json = to_string(&value);
    assert!(!json.contains('\n'));
    assert_eq!(
        json,
        r#"{"text":"line one\nline two\r\n","nested":["a\nb",1,null],"control":"\u0001"}"#
    );
}
