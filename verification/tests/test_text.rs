use insta::output::render_invisible;
use insta::snapshot::{min_indentation, normalize_inline_snapshot, SnapshotContents};
use insta::tokenstream::dedent_doc_content;

#[test]
fn test_invisible() {
    assert_eq!(
        render_invisible("\r\n\x1b\r\x07\x08\x7f\n", true),
        "␍␊\r\n␛␍\r␇␈␡␊\n"
    );
}

#[test]
fn test_dedent_doc_content_no_indent() {
    assert_eq!(dedent_doc_content("\nfoo\nbar"), "\nfoo\nbar");
}

#[test]
fn test_dedent_doc_content_uniform_indent() {
    assert_eq!(dedent_doc_content("\n    foo\n    bar"), "\nfoo\nbar");
}

#[test]
fn test_dedent_doc_content_mixed_indent() {
    assert_eq!(
        dedent_doc_content("\n        foo\n            bar\n        baz"),
        "\nfoo\n    bar\nbaz"
    );
}

#[test]
fn test_dedent_doc_content_with_empty_lines() {
    assert_eq!(dedent_doc_content("\n    foo\n\n    bar"), "\nfoo\n\nbar");
}

#[test]
fn test_dedent_doc_content_single_line() {
    assert_eq!(
        dedent_doc_content(" just a single line"),
        " just a single line"
    );
}

#[test]
fn test_snapshot_contents() {
    let snapshot_contents = SnapshotContents::from_text("testing");
    assert_eq!(snapshot_contents.to_inline(0), r#""testing""#);

    let t = &"
a
b"[1..];
    assert_eq!(
        SnapshotContents::from_text(t).to_inline(0),
        "r###\"
a
b
\"###"
    );

    let t = &"
a
b"[1..];
    assert_eq!(
        SnapshotContents::from_text(t).to_inline(4),
        "r###\"
    a
    b
    \"###"
    );

    let t = &"
    a
    b"[1..];
    assert_eq!(
        SnapshotContents::from_text(t).to_inline(0),
        "r###\"
    a
    b
\"###"
    );

    let t = &"
    a

    b"[1..];
    assert_eq!(
        SnapshotContents::from_text(t).to_inline(0),
        "r###\"
    a

    b
\"###"
    );

    let t = &"
    ab
"[1..];
    assert_eq!(
        SnapshotContents::from_text(t).to_inline(0),
        "r###\"
    ab
\"###"
    );

    let t = "ab";
    assert_eq!(SnapshotContents::from_text(t).to_inline(0), r##""ab""##);
}

#[test]
fn test_normalize_inline_snapshot() {
    let t = r#"
   1
   2
    "#;
    assert_eq!(
        normalize_inline_snapshot(t),
        &r###"
1
2"###[1..]
    );

    let t = r#"
            1
    2"#;
    assert_eq!(
        normalize_inline_snapshot(t),
        &r###"
        1
2"###[1..]
    );

    let t = r#"
            1
            2
    "#;
    assert_eq!(
        normalize_inline_snapshot(t),
        &r###"
1
2"###[1..]
    );

    let t = r#"
   1
   2
"#;
    assert_eq!(
        normalize_inline_snapshot(t),
        &r###"
1
2"###[1..]
    );

    let t = r#"
        a
    "#;
    assert_eq!(normalize_inline_snapshot(t), "a");

    let t = "";
    assert_eq!(normalize_inline_snapshot(t), "");

    let t = r#"
    a
    b
c
    "#;
    assert_eq!(
        normalize_inline_snapshot(t),
        &r###"
    a
    b
c"###[1..]
    );

    let t = r#"
a
    "#;
    assert_eq!(normalize_inline_snapshot(t), "a");

    let t = "
    a";
    assert_eq!(normalize_inline_snapshot(t), "a");

    let t = r#"a
  a"#;
    assert_eq!(
        normalize_inline_snapshot(t),
        &r###"
a
  a"###[1..]
    );
}

#[test]
fn test_min_indentation() {
    let t = r#"
   1
   2
    "#;
    assert_eq!(min_indentation(t), 3);

    let t = r#"
            1
    2"#;
    assert_eq!(min_indentation(t), 4);

    let t = r#"
            1
            2
    "#;
    assert_eq!(min_indentation(t), 12);

    let t = r#"
   1
   2
"#;
    assert_eq!(min_indentation(t), 3);

    let t = r#"
        a
    "#;
    assert_eq!(min_indentation(t), 8);

    let t = "";
    assert_eq!(min_indentation(t), 0);

    let t = r#"
    a
    b
c
    "#;
    assert_eq!(min_indentation(t), 0);

    let t = r#"
a
    "#;
    assert_eq!(min_indentation(t), 0);

    let t = "
    a";
    assert_eq!(min_indentation(t), 4);

    let t = r#"a
  a"#;
    assert_eq!(min_indentation(t), 0);
}
