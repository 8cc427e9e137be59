use insta::content::Content;
use insta::env::{EnvVars, ToolConfig};
use insta::redaction::{
    sorted_redaction, ContentPath, PathItem, Redaction, Selector,
};
use insta::runtime::assert_snapshot;
use insta::serialization::{serialize_content, SerializationFormat};
use insta::settings::Settings;
use insta::snapshot::SnapshotContents;

fn config() -> ToolConfig {
    let env = EnvVars {
        require_full_match: None,
        force_pass: None,
        output: None,
        update: None,
        glob_fail_fast: None,
        test_runner: None,
        test_runner_fallback: None,
        force_update: None,
        force_update_snapshots: None,
    };
    ToolConfig::from_workspace(None, &env).unwrap()
}

/// Whether a value matches an inline snapshot literal.
fn inline_passes(literal: &str, new: &str) -> bool {
    let cfg = config();
    let old = SnapshotContents::from_inline(literal);
    let new = SnapshotContents::from_text(new);
    let out = assert_snapshot(&cfg, Some(&old), &new, false, false, false, true, false);
    out.pass && !out.fail
}

/// Whether a value matches a stored file snapshot.
fn file_passes(stored: &str, new: &str) -> bool {
    let cfg = config();
    let old = SnapshotContents::from_text(stored);
    let new = SnapshotContents::from_text(new);
    let out = assert_snapshot(&cfg, Some(&old), &new, true, true, false, true, false);
    out.pass && !out.fail && out.update.is_none()
}

fn s(v: &str) -> Content {
    Content::String(v.to_string())
}

fn st(name: &str, fields: Vec<(&str, Content)>) -> Content {
    Content::Struct(
        name.to_string(),
        fields.into_iter().map(|(k, v)| (k.to_string(), v)).collect(),
    )
}

/// The value a `User` serializes to.
fn user(id: u32, username: &str, email: &str, extra: &str) -> Content {
    st(
        "User",
        vec![
            ("id", Content::U32(id)),
            ("username", s(username)),
            ("email", Content::NewtypeStruct("Email".to_string(), Box::new(s(email)))),
            ("extra", s(extra)),
        ],
    )
}

fn redacted(value: Content, format: SerializationFormat, redactions: Vec<(&str, Redaction)>) -> String {
    let mut settings = Settings::new();
    for (selector, redaction) in redactions {
        assert!(settings.try_add_redaction(selector, redaction));
    }
    serialize_content(value, format, &settings)
}

fn static_redaction(v: &str) -> Redaction {
    Redaction::Static(s(v))
}

const JOHN_YAML: &str = "id: \"[id]\"\nusername: john_doe\nemail: john@example.com\nextra: \"\"";

const JASON_JSON: &str = "{\n  \"id\": \"[id]\",\n  \"username\": \"jason_doe\",\n  \"email\": \"jason@example.com\",\n  \"extra\": \"[extra]\"\n}";

#[test]
fn test_with_random_value() {
    let out = redacted(
        user(42, "john_doe", "john@example.com", ""),
        SerializationFormat::Yaml,
        vec![(".id", static_redaction("[id]"))],
    );
    assert!(file_passes(JOHN_YAML, &out));
}

#[test]
fn test_with_random_value_and_trailing_comma() {
    let out = redacted(
        user(11, "john_doe", "john@example.com", ""),
        SerializationFormat::Yaml,
        vec![(".id", static_redaction("[id]"))],
    );
    assert!(file_passes(JOHN_YAML, &out));
}

#[test]
fn test_with_random_value_and_match_comma() {
    for _ in 0..2 {
        let out = redacted(
            user(11, "john_doe", "john@example.com", ""),
            SerializationFormat::Yaml,
            vec![(".id", static_redaction("[id]"))],
        );
        assert!(file_passes(JOHN_YAML, &out));
    }
    let out = redacted(
        user(11, "john_doe", "john@example.com", ""),
        SerializationFormat::Yaml,
        vec![(".id", static_redaction("[id]"))],
    );
    assert!(inline_passes(
        r#"
    id: "[id]"
    username: john_doe
    email: john@example.com
    extra: ""
    "#,
        &out
    ));
}

#[test]
fn test_with_random_value_json() {
    let out = redacted(
        user(9999, "jason_doe", "jason@example.com", "ssn goes here"),
        SerializationFormat::Json,
        vec![(".id", static_redaction("[id]")), (".extra", static_redaction("[extra]"))],
    );
    assert!(file_passes(JASON_JSON, &out));
}

#[test]
fn test_with_random_value_json_match() {
    let out = redacted(
        user(9999, "jason_doe", "jason@example.com", "ssn goes here"),
        SerializationFormat::Json,
        vec![(".id", static_redaction("[id]")), (".extra", static_redaction("[extra]"))],
    );
    assert!(file_passes(JASON_JSON, &out));
}

#[test]
fn test_with_random_value_json_settings() {
    let mut settings = Settings::new();
    settings.add_redaction(".id", static_redaction("[id]"));
    settings.add_redaction(".extra", static_redaction("[extra]"));
    let out = serialize_content(
        user(122, "jason_doe", "jason@example.com", "ssn goes here"),
        SerializationFormat::Json,
        &settings,
    );
    assert!(file_passes(JASON_JSON, &out));
}

#[test]
fn test_with_random_value_json_settings2() {
    let mut settings = Settings::new();
    settings.set_redactions(vec![
        (".id", static_redaction("[id]")),
        (".extra", static_redaction("[extra]")),
    ]);
    let out = serialize_content(
        user(975, "jason_doe", "jason@example.com", "ssn goes here"),
        SerializationFormat::Json,
        &settings,
    );
    assert!(file_passes(JASON_JSON, &out));
}

#[test]
fn test_redact_newtype_struct() {
    let wrapper = Content::NewtypeStruct(
        "UserWrapper".to_string(),
        Box::new(user(42, "john_doe", "john@example.com", "")),
    );
    let out = redacted(wrapper, SerializationFormat::Json, vec![(".id", static_redaction("[id]"))]);
    assert!(inline_passes(
        r#"
    {
      "id": "[id]",
      "username": "john_doe",
      "email": "john@example.com",
      "extra": ""
    }
    "#,
        &out
    ));
}

#[test]
fn test_redact_newtype_enum() {
    let visitor = Content::StructVariant(
        "Role".to_string(),
        1,
        "Visitor".to_string(),
        vec![("id".to_string(), s("my-id")), ("name".to_string(), s("my-name"))],
    );
    let out = redacted(visitor, SerializationFormat::Yaml, vec![(".id", static_redaction("[id]"))]);
    assert!(inline_passes(
        r#"
    Visitor:
      id: "[id]"
      name: my-name
    "#,
        &out
    ));

    let admin = Content::NewtypeVariant(
        "Role".to_string(),
        0,
        "Admin".to_string(),
        Box::new(user(42, "john_doe", "john@example.com", "")),
    );
    let out = redacted(admin, SerializationFormat::Yaml, vec![(".id", static_redaction("[id]"))]);
    assert!(inline_passes(
        r#"
    Admin:
      id: "[id]"
      username: john_doe
      email: john@example.com
      extra: ""
    "#,
        &out
    ));
}

#[test]
fn test_redact_recursive() {
    let root = st(
        "Node",
        vec![
            ("id", Content::U64(0)),
            (
                "next",
                Content::Wrapped(Box::new(st(
                    "Node",
                    vec![("id", Content::U64(1)), ("next", Content::Nothing)],
                ))),
            ),
        ],
    );
    let out = redacted(root, SerializationFormat::Json, vec![(".**.id", static_redaction("[id]"))]);
    assert!(inline_passes(
        r#"
    {
      "id": "[id]",
      "next": {
        "id": "[id]",
        "next": null
      }
    }
    "#,
        &out
    ));
}

fn flags() -> Content {
    Content::Sequence(vec![s("zzz"), s("foo"), s("aha"), s("is_admin")])
}

#[test]
fn test_ordering() {
    let value = st(
        "User",
        vec![("id", Content::U64(122)), ("username", s("jason_doe")), ("flags", flags())],
    );
    let mut settings = Settings::new();
    settings.add_redaction(".id", static_redaction("[id]"));
    settings.sort_selector(".flags");
    let out = serialize_content(value, SerializationFormat::Json, &settings);
    assert!(file_passes(
        "{\n  \"id\": \"[id]\",\n  \"username\": \"jason_doe\",\n  \"flags\": [\n    \"aha\",\n    \"foo\",\n    \"is_admin\",\n    \"zzz\"\n  ]\n}",
        &out
    ));
}

#[test]
fn test_ordering_newtype_set() {
    let value = st(
        "User",
        vec![
            ("id", Content::U64(122)),
            ("username", s("jason_doe")),
            ("flags", Content::NewtypeStruct("MySet".to_string(), Box::new(flags()))),
        ],
    );
    let out = redacted(
        value,
        SerializationFormat::Json,
        vec![(".", sorted_redaction()), (".flags", sorted_redaction())],
    );
    assert!(file_passes(
        "{\n  \"flags\": [\n    \"aha\",\n    \"foo\",\n    \"is_admin\",\n    \"zzz\"\n  ],\n  \"id\": 122,\n  \"username\": \"jason_doe\"\n}",
        &out
    ));
}

fn complex_object() -> Content {
    st(
        "ComplexObject",
        vec![
            ("id", Content::U32(12345)),
            ("items", Content::Sequence(vec![s("one"), s("two"), s("three")])),
            (
                "metadata",
                Content::Mapping(vec![(s("version"), Content::U32(123)), (s("count"), Content::U32(42))]),
            ),
        ],
    )
}

const COMPLEX_YAML: &str = "id: \"[id]\"\nitems:\n  - one\n  - two\n  - three\nmetadata:\n  count: 42\n  version: 123";

#[test]
fn test_named_redacted_with_debug_expr() {
    let out = redacted(
        complex_object(),
        SerializationFormat::Yaml,
        vec![(".id", static_redaction("[id]")), (".metadata", sorted_redaction())],
    );
    assert!(file_passes(COMPLEX_YAML, &out));
}

#[test]
fn test_named_redacted_supported_form() {
    let out = redacted(
        complex_object(),
        SerializationFormat::Yaml,
        vec![(".id", static_redaction("[id]")), (".metadata", sorted_redaction())],
    );
    assert!(file_passes(COMPLEX_YAML, &out));
}

#[test]
fn test_struct_array_redaction() {
    let product = |id: &str, name: &str| st("Product", vec![("_id", s(id)), ("product_name", s(name))]);
    let checkout = st(
        "Checkout",
        vec![
            ("_id", s("checkout/1")),
            (
                "products",
                Content::Sequence(vec![product("product/1", "a car"), product("product/2", "a boat")]),
            ),
        ],
    );
    let out = redacted(
        Content::Sequence(vec![checkout]),
        SerializationFormat::Yaml,
        vec![
            ("[]._id", static_redaction("[checkout_id]")),
            ("[].products[]._id", static_redaction("[product_id]")),
            ("[].products[].product_name", static_redaction("[product_name]")),
        ],
    );
    assert!(file_passes(
        "- _id: \"[checkout_id]\"\n  products:\n    - _id: \"[product_id]\"\n      product_name: \"[product_name]\"\n    - _id: \"[product_id]\"\n      product_name: \"[product_name]\"",
        &out
    ));
}

#[test]
fn test_map_key_redaction() {
    let key = st("Key", vec![("bucket", Content::U32(1)), ("value", Content::U32(0))]);
    let value = st(
        "Foo",
        vec![
            ("hm", Content::Mapping(vec![(key, Content::U32(42))])),
            (
                "btm",
                Content::Mapping(vec![(
                    Content::Tuple(vec![Content::U32(0), Content::U32(0)]),
                    Content::U32(23),
                )]),
            ),
        ],
    );
    let out = redacted(
        value,
        SerializationFormat::Yaml,
        vec![
            (".hm.$key.bucket", static_redaction("[bucket]")),
            (".btm.$key", static_redaction("[key]")),
        ],
    );
    assert!(file_passes(
        "hm:\n  ? bucket: \"[bucket]\"\n    value: 0\n  : 42\nbtm:\n  \"[key]\": 23",
        &out
    ));
}

#[test]
fn content_paths_read_as_dotted_text() {
    let items = [PathItem::Field("id".to_string())];
    assert_eq!(ContentPath(&items).to_string(), ".id");
    let items = [
        PathItem::Content(s("users")),
        PathItem::Index(12, 20),
        PathItem::Field("name".to_string()),
        PathItem::Content(Content::U32(7)),
    ];
    assert_eq!(ContentPath(&items).to_string(), ".users.12.name.<content>");
    assert_eq!(ContentPath(&[]).to_string(), "");
}

/// Redacts with a callback: the matches are listed, the callback computes
/// their replacements, and those are put back.
fn redact_with_callback(
    selector: &Selector,
    value: Content,
    f: impl Fn(Content, ContentPath<'_>) -> Content,
) -> Content {
    let outs: Vec<Content> = selector
        .matches(&value)
        .into_iter()
        .map(|(path, v)| f(v, ContentPath(&path)))
        .collect();
    selector.replace_matches(&value, &outs)
}

#[test]
fn test_with_random_value_inline_callback() {
    let selector = Selector::parse(".id").unwrap();
    let value = redact_with_callback(
        &selector,
        user(23, "john_doe", "john@example.com", ""),
        |value: Content, path: ContentPath| {
            assert_eq!(path.to_string(), ".id");
            assert_eq!(value.as_u64().unwrap(), 23);
            s("[id]")
        },
    );
    let out = serialize_content(value, SerializationFormat::Yaml, &Settings::new());
    assert!(file_passes(JOHN_YAML, &out));
}

#[test]
fn test_with_callbacks() {
    let selector = Selector::parse(".id").unwrap();
    let value = redact_with_callback(
        &selector,
        user(1234, "jason_doe", "jason@example.com", "extra here"),
        |value: Content, path: ContentPath| {
            assert_eq!(path.to_string(), ".id");
            assert_eq!(value.as_u64().unwrap(), 1234);
            s("[id]")
        },
    );
    let out = serialize_content(value, SerializationFormat::Json, &Settings::new());
    assert!(file_passes(
        "{\n  \"id\": \"[id]\",\n  \"username\": \"jason_doe\",\n  \"email\": \"jason@example.com\",\n  \"extra\": \"extra here\"\n}",
        &out
    ));
}

#[test]
fn callback_redactions_replace_matches_in_walk_order() {
    let selector = Selector::parse(".items[]").unwrap();
    let value = st("S", vec![("items", Content::Sequence(vec![s("a"), s("b")]))]);
    let ms = selector.matches(&value);
    let paths: Vec<String> = ms.iter().map(|(p, _)| ContentPath(p).to_string()).collect();
    assert_eq!(paths, vec![".items.0".to_string(), ".items.1".to_string()]);
    let out = selector.replace_matches(&value, &vec![s("x"), s("y")]);
    let json = serialize_content(out, SerializationFormat::JsonCompact, &Settings::new());
    assert_eq!(json, r#"{"items": ["x", "y"]}"#);
    // A static redaction and the same replacements through a callback agree.
    let a = selector.redact(value.clone(), &Redaction::Static(s("z")));
    let b = redact_with_callback(&selector, value, |_, _| s("z"));
    assert_eq!(
        serialize_content(a, SerializationFormat::Json, &Settings::new()),
        serialize_content(b, SerializationFormat::Json, &Settings::new())
    );
}
