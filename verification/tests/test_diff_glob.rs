use insta::content::yaml::parse_yaml;
use insta::content::Error;
use insta::diff::{changeset, RowKind};
use insta::globbing::{select_glob_files, WalkedFile};

fn rows(old: &str, new: &str) -> Vec<(RowKind, Option<usize>, Option<usize>, String, bool)> {
    changeset(old, new)
        .into_iter()
        .map(|r| (r.kind, r.old_line, r.new_line, r.text, r.line_break))
        .collect()
}

#[test]
fn changeset_of_one_changed_line() {
    assert_eq!(
        rows("a\nb\n", "a\nc\n"),
        vec![
            (RowKind::Equal, Some(1), Some(1), "a\n".to_string(), false),
            (RowKind::Delete, Some(2), None, "b\n".to_string(), false),
            (RowKind::Insert, None, Some(2), "c\n".to_string(), false),
        ]
    );
}

#[test]
fn changeset_of_equal_snapshots_says_matching() {
    let r = rows("a\nb\n", "a\nb\n");
    assert_eq!(r.len(), 1);
    assert_eq!(r[0].0, RowKind::Matching);
}

#[test]
fn changeset_of_empty_snapshots_says_matching() {
    let r = rows("", "");
    assert_eq!(r.len(), 1);
    assert_eq!(r[0].0, RowKind::Matching);
}

#[test]
fn changeset_keeps_four_lines_of_context() {
    let old: String = (1..=12).map(|i| format!("{i}\n")).collect();
    let mut new_lines: Vec<String> = (1..=12).map(|i| format!("{i}\n")).collect();
    new_lines[0] = "x\n".to_string();
    new_lines[11] = "y\n".to_string();
    let new: String = new_lines.concat();
    let r = rows(&old, &new);
    let kinds: Vec<RowKind> = r.iter().map(|x| x.0).collect();
    assert_eq!(
        kinds,
        vec![
            RowKind::Delete,
            RowKind::Insert,
            RowKind::Equal,
            RowKind::Equal,
            RowKind::Equal,
            RowKind::Equal,
            RowKind::Gap,
            RowKind::Equal,
            RowKind::Equal,
            RowKind::Equal,
            RowKind::Equal,
            RowKind::Delete,
            RowKind::Insert,
        ]
    );
    assert_eq!(r[5].3, "5\n");
    assert_eq!(r[7].1, Some(8));
    assert_eq!(r[7].2, Some(8));
    assert_eq!(r[12].2, Some(12));
}

#[test]
fn changeset_marks_a_missing_line_break() {
    let r = rows("a", "b");
    assert_eq!(r[0].0, RowKind::Delete);
    assert!(r[0].4);
    assert_eq!(r[0].3, "a");
}

#[test]
fn changeset_shows_line_endings_where_they_differ() {
    let r = rows("a\n", "a");
    assert_eq!(r[0], (RowKind::Delete, Some(1), None, "a\u{240a}\n".to_string(), false));
    assert_eq!(r[1], (RowKind::Insert, None, Some(1), "a".to_string(), true));
}

fn walked(path: &[&str]) -> WalkedFile {
    let rel = path[2..].join("/");
    WalkedFile { path: path.iter().map(|s| s.to_string()).collect(), relative: rel }
}

#[test]
fn glob_selects_and_sorts_matching_files() {
    let files = vec![
        walked(&["/", "base", "b.txt"]),
        walked(&["/", "base", "a.txt"]),
        walked(&["/", "base", "c.md"]),
    ];
    let s = select_glob_files("*.txt", &[], &files).unwrap();
    let names: Vec<&str> = s.matching.iter().map(|f| f.relative.as_str()).collect();
    assert_eq!(names, vec!["a.txt", "b.txt"]);
    assert_eq!(s.selected.len(), 2);
    assert_eq!(s.suffixes, vec!["a.txt".to_string(), "b.txt".to_string()]);
}

#[test]
fn glob_suffix_keeps_directories_below_the_common_prefix() {
    let files = vec![
        walked(&["/", "base", "y", "a.TXT"]),
        walked(&["/", "base", "x", "a.txt"]),
        walked(&["/", "base", "x", "deeper", "a.txt"]),
    ];
    let s = select_glob_files("*/*.txt", &[], &files).unwrap();
    assert_eq!(s.suffixes, vec!["x/a.txt".to_string(), "y/a.TXT".to_string()]);
}

#[test]
fn glob_filter_keeps_the_suffix_of_all_matches() {
    let files = vec![walked(&["/", "base", "x", "a.txt"]), walked(&["/", "base", "y", "a.txt"])];
    let filters = vec!["y/*".to_string(), "[".to_string()];
    let s = select_glob_files("*/*.txt", &filters, &files).unwrap();
    assert_eq!(s.matching.len(), 2);
    assert_eq!(s.selected.len(), 1);
    assert_eq!(s.selected[0].relative, "y/a.txt");
    assert_eq!(s.suffixes, vec!["y/a.txt".to_string()]);
}

#[test]
fn glob_filters_that_do_not_build_filter_nothing() {
    let files = vec![walked(&["/", "base", "a.txt"])];
    let filters = vec!["[".to_string()];
    let s = select_glob_files("*.txt", &filters, &files).unwrap();
    assert_eq!(s.selected.len(), 1);
}

#[test]
fn glob_pattern_that_does_not_build() {
    assert!(select_glob_files("a[", &[], &[]).is_none());
}

#[test]
fn test_fail() {
    let s = "
# syntax error
scalar
key: [1, 2]]
key1:a2
";
    assert!(parse_yaml(s, "x.yaml").is_err());
    assert!(matches!(parse_yaml(s, "x.yaml"), Err(Error::FailedParsingYaml(f)) if f == "x.yaml"));
}

#[test]
fn yaml_with_one_document_reads() {
    let v = parse_yaml("a: 1\nb: [true, ~]\n", "x").unwrap();
    assert!(format!("{v:?}").contains("Integer(1)"));
}

#[test]
fn yaml_with_two_documents_fails() {
    assert!(parse_yaml("---\na: 1\n---\nb: 2\n", "x").is_err());
    assert!(parse_yaml("", "x").is_err());
}
