use insta::content::{Content, Error};
use insta::snapfile::{
    module_name_from_file_name, snapshot_name_from_file_name, split_snapshot_file, MetaData,
    Snapshot, SnapshotHeader,
};

fn s(v: &str) -> Content {
    Content::String(v.to_string())
}

#[test]
fn yaml_header_and_contents_are_split() {
    let text = "---\nsource: tests/test_basic.rs\nexpression: \"vec![1, 2, 3]\"\n---\n[\n    1,\n]\n";
    let parts = split_snapshot_file(text);
    match parts.header {
        SnapshotHeader::Yaml(h) => {
            assert_eq!(h, "---\nsource: tests/test_basic.rs\nexpression: \"vec![1, 2, 3]\"\n")
        }
        _ => panic!("expected a YAML header"),
    }
    assert_eq!(parts.contents, "[\n    1,\n]");
}

#[test]
fn unterminated_yaml_header_has_no_contents() {
    let parts = split_snapshot_file("---\nsource: a.rs\n");
    assert!(matches!(parts.header, SnapshotHeader::Yaml(ref h) if h == "---\nsource: a.rs\n"));
    assert_eq!(parts.contents, "");
}

#[test]
fn crlf_lines_read_as_lf() {
    let parts = split_snapshot_file("---\r\na: b\r\n---  \r\nx\r\ny\r\n");
    assert!(matches!(parts.header, SnapshotHeader::Yaml(ref h) if h == "---\r\na: b\r\n"));
    assert_eq!(parts.contents, "x\ny");
}

#[test]
fn legacy_header_is_read() {
    let text = "Created: 2019-01-01\nCreator: insta@0.1\nExpression: foo()\nSOURCE:  src/lib.rs  \nother: x\n\nline one\nline two\n";
    let parts = split_snapshot_file(text);
    match parts.header {
        SnapshotHeader::Legacy { expression, source } => {
            assert_eq!(expression.as_deref(), Some("foo()"));
            assert_eq!(source.as_deref(), Some("src/lib.rs"));
        }
        _ => panic!("expected a legacy header"),
    }
    assert_eq!(parts.contents, "line one\nline two");
}

#[test]
fn empty_file_has_empty_legacy_header() {
    let parts = split_snapshot_file("");
    assert!(matches!(
        parts.header,
        SnapshotHeader::Legacy { expression: None, source: None }
    ));
    assert_eq!(parts.contents, "");
}

#[test]
fn names_come_from_the_file_name() {
    assert_eq!(module_name_from_file_name("test_basic__debug_vector.snap"), "test_basic");
    assert_eq!(
        snapshot_name_from_file_name("test_basic__debug_vector.snap"),
        Some("debug_vector".to_string())
    );
    assert_eq!(module_name_from_file_name("plain.snap"), "plain.snap");
    assert_eq!(snapshot_name_from_file_name("plain.snap"), None);
    assert_eq!(
        snapshot_name_from_file_name("a__b__c.snap.new"),
        Some("b__c".to_string())
    );
    assert_eq!(snapshot_name_from_file_name("a.b__c.snap"), None);
}

#[test]
fn metadata_is_read_from_fields() {
    let content = Content::Mapping(vec![
        (s("source"), s("tests/test_basic.rs")),
        (s("assertion_line"), Content::U64(12)),
        (s("expression"), s("vec![1, 2, 3]")),
        (s("description"), s("")),
        (s("info"), Content::Bool(true)),
        (s("source"), s("tests/other.rs")),
        (s("input_file"), Content::Nothing),
    ]);
    let md = MetaData::from_content(content).unwrap();
    assert_eq!(md.source(), Some("tests/other.rs"));
    assert_eq!(md.assertion_line(), Some(12));
    assert_eq!(md.expression(), Some("vec![1, 2, 3]"));
    assert_eq!(md.description(), None);
    assert!(matches!(md.private_info(), Some(Content::Bool(true))));
    assert_eq!(md.input_file(), None);
}

#[test]
fn metadata_errors() {
    assert!(matches!(
        MetaData::from_content(Content::Sequence(vec![])),
        Err(Error::UnexpectedDataType)
    ));
    let bad_key = Content::Mapping(vec![(s("source"), s("a")), (Content::I32(1), s("b"))]);
    assert!(matches!(
        MetaData::from_content(bad_key),
        Err(Error::InvalidStructField(Content::I32(1)))
    ));
    let bad_line = Content::Mapping(vec![(s("assertion_line"), Content::I64(-1))]);
    assert!(matches!(MetaData::from_content(bad_line), Err(Error::UnexpectedDataType)));
    let bad_source = Content::Mapping(vec![(s("source"), Content::Bool(false))]);
    assert!(matches!(MetaData::from_content(bad_source), Err(Error::UnexpectedDataType)));
}

#[test]
fn metadata_as_content_keeps_set_fields_in_order() {
    let md = MetaData::new(
        Some("src/lib.rs".to_string()),
        Some(7),
        None,
        Some("x".to_string()),
        None,
        None,
    );
    match md.as_content() {
        Content::Struct(name, fields) => {
            assert_eq!(name, "MetaData");
            let names: Vec<&str> = fields.iter().map(|(n, _)| n.as_str()).collect();
            assert_eq!(names, vec!["source", "expression", "assertion_line"]);
            assert!(matches!(fields[2].1, Content::U32(7)));
        }
        _ => panic!("not a struct"),
    }
    let back = MetaData::from_content(match md.as_content() {
        Content::Struct(_, fields) => Content::Mapping(
            fields.into_iter().map(|(k, v)| (Content::String(k), v)).collect(),
        ),
        _ => unreachable!(),
    })
    .unwrap();
    assert_eq!(back.source(), Some("src/lib.rs"));
    assert_eq!(back.assertion_line(), Some(7));
    assert_eq!(back.expression(), Some("x"));
}

#[test]
fn snapshot_from_file_parts() {
    let parts = split_snapshot_file("---\nexpression: x\n---\nhello\n");
    let md = MetaData::from_legacy(Some("x".to_string()), None);
    let snap = Snapshot::from_file_parts("mod__name.snap", parts, md);
    assert_eq!(snap.module_name(), "mod");
    assert_eq!(snap.snapshot_name(), Some("name"));
    assert_eq!(snap.contents_str(), "hello");
    assert_eq!(snap.metadata().expression(), Some("x"));
    let default = MetaData::default();
    assert_eq!(default.source(), None);
}
