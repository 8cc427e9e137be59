use insta::content::{Content, Error};
use insta::pending::PendingInlineSnapshot;
use insta::snapfile::{MetaData, Snapshot};
use insta::snapshot::SnapshotContents;

fn s(v: &str) -> Content {
    Content::String(v.to_string())
}

/// A value as it reads back once written: structs become maps of their
/// fields.
fn stored(c: Content) -> Content {
    match c {
        Content::Struct(_, fields) => Content::Mapping(
            fields
                .into_iter()
                .map(|(k, v)| (Content::String(k), stored(v)))
                .collect(),
        ),
        other => other,
    }
}

fn snapshot(module: &str, name: Option<&str>, contents: &str) -> Snapshot {
    Snapshot::from_components(
        module.to_string(),
        name.map(|n| n.to_string()),
        MetaData::new(
            Some("src/lib.rs".to_string()),
            Some(3),
            None,
            Some("value".to_string()),
            None,
            None,
        ),
        SnapshotContents::from_text(contents),
    )
}

fn record(run: &str, line: u32) -> PendingInlineSnapshot {
    PendingInlineSnapshot::new(None, None, line, run.to_string())
}

#[test]
fn snapshot_as_content_lists_its_fields() {
    match snapshot("m", Some("n"), "x").as_content() {
        Content::Struct(name, fields) => {
            assert_eq!(name, "Content");
            let names: Vec<&str> = fields.iter().map(|(n, _)| n.as_str()).collect();
            assert_eq!(names, vec!["module_name", "snapshot_name", "metadata", "snapshot"]);
        }
        _ => panic!("not a struct"),
    }
    match snapshot("m", None, "x").as_content() {
        Content::Struct(_, fields) => {
            let names: Vec<&str> = fields.iter().map(|(n, _)| n.as_str()).collect();
            assert_eq!(names, vec!["module_name", "metadata", "snapshot"]);
        }
        _ => panic!("not a struct"),
    }
}

#[test]
fn snapshot_reads_back() {
    let snap = snapshot("tests__basic", Some("vector"), "[\n  1\n]");
    let back = Snapshot::from_content(stored(snap.as_content())).unwrap();
    assert_eq!(back.module_name(), "tests__basic");
    assert_eq!(back.snapshot_name(), Some("vector"));
    assert_eq!(back.contents_str(), "[\n  1\n]");
    assert_eq!(back.metadata().source(), Some("src/lib.rs"));
    assert_eq!(back.metadata().assertion_line(), Some(3));
    assert_eq!(back.metadata().expression(), Some("value"));
}

#[test]
fn snapshot_contents_are_kept_as_stored() {
    let value = Content::Mapping(vec![
        (s("module_name"), s("m")),
        (s("metadata"), Content::Mapping(vec![])),
        (s("snapshot"), s("a\r\nb")),
    ]);
    let snap = Snapshot::from_content(value).unwrap();
    assert_eq!(snap.contents_str(), "a\r\nb");
    assert_eq!(snap.snapshot_name(), None);
}

#[test]
fn snapshot_read_errors() {
    assert!(matches!(Snapshot::from_content(s("x")), Err(Error::UnexpectedDataType)));
    let no_module = Content::Mapping(vec![(s("metadata"), Content::Mapping(vec![]))]);
    assert!(matches!(Snapshot::from_content(no_module), Err(Error::UnexpectedDataType)));
    let no_metadata = Content::Mapping(vec![(s("module_name"), s("m")), (s("snapshot"), s("x"))]);
    assert!(matches!(Snapshot::from_content(no_metadata), Err(Error::MissingField)));
    let bad_metadata = Content::Mapping(vec![
        (s("module_name"), s("m")),
        (s("metadata"), Content::Bool(true)),
    ]);
    assert!(matches!(Snapshot::from_content(bad_metadata), Err(Error::UnexpectedDataType)));
    let no_snapshot = Content::Mapping(vec![
        (s("module_name"), s("m")),
        (s("metadata"), Content::Mapping(vec![])),
    ]);
    assert!(matches!(Snapshot::from_content(no_snapshot), Err(Error::UnexpectedDataType)));
    let bad_key = Content::Mapping(vec![(Content::Bool(false), s("m"))]);
    assert!(matches!(
        Snapshot::from_content(bad_key),
        Err(Error::InvalidStructField(Content::Bool(false)))
    ));
}

#[test]
fn pending_as_content_lists_its_fields() {
    match record("r1", 9).as_content() {
        Content::Struct(name, fields) => {
            assert_eq!(name, "PendingInlineSnapshot");
            let names: Vec<&str> = fields.iter().map(|(n, _)| n.as_str()).collect();
            assert_eq!(names, vec!["run_id", "line", "new", "old"]);
            assert!(matches!(fields[1].1, Content::U32(9)));
            assert!(matches!(fields[2].1, Content::Nothing));
            assert!(matches!(fields[3].1, Content::Nothing));
        }
        _ => panic!("not a struct"),
    }
}

#[test]
fn pending_reads_back() {
    let p = PendingInlineSnapshot::new(
        Some(snapshot("m", None, "new")),
        Some(snapshot("m", None, "old")),
        42,
        "run-7".to_string(),
    );
    let back = PendingInlineSnapshot::from_content(stored(p.as_content())).unwrap();
    assert_eq!(back.run_id, "run-7");
    assert_eq!(back.line, 42);
    assert_eq!(back.new.as_ref().unwrap().contents_str(), "new");
    assert_eq!(back.old.as_ref().unwrap().contents_str(), "old");
    assert_eq!(back.new.as_ref().unwrap().module_name(), "m");

    let empty = PendingInlineSnapshot::from_content(stored(record("r", 1).as_content())).unwrap();
    assert!(empty.new.is_none() && empty.old.is_none());
    assert_eq!(empty.run_id, "r");
}

#[test]
fn pending_read_errors() {
    let no_run = Content::Mapping(vec![(s("line"), Content::U32(1))]);
    assert!(matches!(PendingInlineSnapshot::from_content(no_run), Err(Error::UnexpectedDataType)));
    let bad_line = Content::Mapping(vec![(s("run_id"), s("r")), (s("line"), Content::I64(-3))]);
    assert!(matches!(PendingInlineSnapshot::from_content(bad_line), Err(Error::UnexpectedDataType)));
    let bad_new = Content::Mapping(vec![
        (s("run_id"), s("r")),
        (s("line"), Content::U64(1)),
        (s("new"), Content::Mapping(vec![(s("module_name"), s("m"))])),
    ]);
    assert!(matches!(PendingInlineSnapshot::from_content(bad_new), Err(Error::MissingField)));
    let unit_new = Content::Mapping(vec![
        (s("run_id"), s("r")),
        (s("line"), Content::U64(1)),
        (s("new"), Content::Unit),
    ]);
    assert!(matches!(PendingInlineSnapshot::from_content(unit_new), Err(Error::UnexpectedDataType)));
    assert!(matches!(
        PendingInlineSnapshot::from_content(Content::Sequence(vec![])),
        Err(Error::UnexpectedDataType)
    ));
}

#[test]
fn only_the_last_run_is_kept() {
    let batch = vec![record("a", 1), record("b", 2), record("a", 3), record("b", 4)];
    let kept = PendingInlineSnapshot::retain_last_run(batch);
    let lines: Vec<u32> = kept.iter().map(|p| p.line).collect();
    assert_eq!(lines, vec![2, 4]);
    assert!(kept.iter().all(|p| p.run_id == "b"));
    assert!(PendingInlineSnapshot::retain_last_run(vec![]).is_empty());
    let one_run = PendingInlineSnapshot::retain_last_run(vec![record("x", 5), record("x", 6)]);
    assert_eq!(one_run.len(), 2);
}
