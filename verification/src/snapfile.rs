//! The layout of a stored snapshot file.
//!
//! A file starts with a header and continues with the snapshot contents.
//! A YAML header starts with a `---` line and ends at the next `---` line.
//! An older header is a first line followed by `key: value` lines up to an
//! empty line; of those, `expression` and `source` are read.  The file
//! name is `<module>__<name>.snap`.
use vstd::prelude::*;

use crate::content::{
    Content, ContentV, Error, entry_views, fields_as_entries, i64_of, is_nil_of, lemma_entry_views,
    lemma_fields_as_entries, str_of, struct_as_map,
};
use crate::env::str_eq;
use crate::snapshot::SnapshotContents;
use crate::text::{
    chars_of, crlf_free, lemma_terminated_lines_join, is_whitespace, join, join_lines, lines, slice_copy, split_lines, string_from,
    trim, trim_end, trim_end_len, trim_start_len,
};

verus! {

broadcast use vstd::std_specs::vec::group_vec_axioms;

// ---------------------------------------------------------------------
// Lines
// ---------------------------------------------------------------------
/// Where the line that starts at `i` ends: just after its `\n`, or at the
/// end of the text.
pub open spec fn line_end(s: Seq<char>, i: int) -> int
    decreases s.len() - i,
{
    if i >= s.len() {
        s.len() as int
    } else if s[i] == '\n' {
        i + 1
    } else {
        line_end(s, i + 1)
    }
}

/// A line ends after it starts, and within the text.
pub proof fn lemma_line_end(s: Seq<char>, i: int)
    requires
        0 <= i,
    ensures
        i < s.len() ==> i < line_end(s, i) <= s.len(),
        i >= s.len() ==> line_end(s, i) == s.len(),
    decreases s.len() - i,
{
    if i < s.len() && s[i] != '\n' {
        lemma_line_end(s, i + 1);
    }
}

/// Whether a line is the `---` marker, trailing whitespace aside.
pub open spec fn is_marker(line: Seq<char>) -> bool {
    trim_end(line) == seq!['-', '-', '-']
}

// ---------------------------------------------------------------------
// YAML header
// ---------------------------------------------------------------------
/// Where a YAML header whose lines continue at `i` ends, and where the
/// contents begin: before and after the next marker line, else both at
/// the end of the text.
pub open spec fn yaml_header_end(s: Seq<char>, i: int) -> (int, int)
    decreases s.len() - i,
{
    if i < 0 || i >= s.len() {
        (s.len() as int, s.len() as int)
    } else {
        let e = line_end(s, i);
        proof {
            lemma_line_end(s, i);
        }
        if is_marker(s.subrange(i, e)) {
            (i, e)
        } else {
            yaml_header_end(s, e)
        }
    }
}

// ---------------------------------------------------------------------
// Older header
// ---------------------------------------------------------------------
/// Whether `k` is the lower-case ASCII letter `w`, in either case (or `k`
/// is `w` itself).
pub open spec fn same_letter(k: char, w: char) -> bool {
    k == w || ('a' <= w && w <= 'z' && (k as u32) as int + 32 == (w as u32) as int)
}

/// Whether `key` is `word` (a lower-case ASCII word) in any case.  For the
/// words read here this is whether the lower case of `key` is `word`: no
/// other character has one of their letters as its lower case.
pub open spec fn is_word_in_any_case(key: Seq<char>, word: Seq<char>) -> bool {
    key.len() == word.len() && forall|i: int| 0 <= i < key.len() ==> same_letter(#[trigger] key[i], word[i])
}

/// The position of the first `c` in `s` at or after `i`.
pub open spec fn find_char_from(s: Seq<char>, c: char, i: int) -> Option<int>
    decreases s.len() - i,
{
    if i < 0 || i >= s.len() {
        None
    } else if s[i] == c {
        Some(i)
    } else {
        find_char_from(s, c, i + 1)
    }
}

/// The expression and source after reading one `key: value` line: the
/// key is the text before the first `:`, the value the trimmed text after
/// it.  A line without `:`, or with another key, changes nothing.
pub open spec fn legacy_line(line: Seq<char>, m: (Option<Seq<char>>, Option<Seq<char>>)) -> (
    Option<Seq<char>>,
    Option<Seq<char>>,
) {
    match find_char_from(line, ':', 0) {
        None => m,
        Some(k) => {
            let key = line.take(k);
            let value = trim(line.skip(k + 1));
            if is_word_in_any_case(key, seq!['e', 'x', 'p', 'r', 'e', 's', 's', 'i', 'o', 'n']) {
                (Some(value), m.1)
            } else if is_word_in_any_case(key, seq!['s', 'o', 'u', 'r', 'c', 'e']) {
                (m.0, Some(value))
            } else {
                m
            }
        },
    }
}

/// The expression and source read from the header lines that continue at
/// `i`, and where the contents begin: after the first blank line, else at
/// the end of the text.
pub open spec fn legacy_header(s: Seq<char>, i: int, m: (Option<Seq<char>>, Option<Seq<char>>)) -> (
    (Option<Seq<char>>, Option<Seq<char>>),
    int,
)
    decreases s.len() - i,
{
    if i < 0 || i >= s.len() {
        (m, s.len() as int)
    } else {
        let e = line_end(s, i);
        proof {
            lemma_line_end(s, i);
        }
        let line = s.subrange(i, e);
        if trim_end(line).len() == 0 {
            (m, e)
        } else {
            legacy_header(s, e, legacy_line(line, m))
        }
    }
}

// ---------------------------------------------------------------------
// The whole file
// ---------------------------------------------------------------------
/// Whether the file has a YAML header: its first line is a marker.
pub open spec fn has_yaml_header(s: Seq<char>) -> bool {
    is_marker(s.subrange(0, line_end(s, 0)))
}

/// Where the contents of the file begin.
pub open spec fn contents_start(s: Seq<char>) -> int {
    if has_yaml_header(s) {
        yaml_header_end(s, line_end(s, 0)).1
    } else {
        legacy_header(s, line_end(s, 0), (None, None)).1
    }
}

/// The YAML header of a file that has one, its first marker line
/// included and its closing marker line left out.
pub open spec fn yaml_header_of(s: Seq<char>) -> Seq<char> {
    s.take(yaml_header_end(s, line_end(s, 0)).0)
}

/// The expression and source of a file with an older header.
pub open spec fn legacy_metadata_of(s: Seq<char>) -> (Option<Seq<char>>, Option<Seq<char>>) {
    legacy_header(s, line_end(s, 0), (None, None)).0
}

/// The contents of the file: its lines after the header, joined by `\n`
/// (so without line breaks at the end and with `\r\n` read as `\n`).
pub open spec fn contents_of(s: Seq<char>) -> Seq<char> {
    join(lines(s.skip(contents_start(s))), seq!['\n'])
}

/// The header of a snapshot file.
#[derive(Debug)]
pub enum SnapshotHeader {
    /// The text of a YAML header, to be read as metadata.
    Yaml(String),
    /// An older header: the expression and the source it names.
    Legacy { expression: Option<String>, source: Option<String> },
}

/// A snapshot file split into its header and its contents.
#[derive(Debug)]
pub struct SnapshotFileParts {
    pub header: SnapshotHeader,
    pub contents: String,
}

/// The views of an optional string.
pub open spec fn opt_view(o: Option<String>) -> Option<Seq<char>> {
    match o {
        Some(s) => Some(s@),
        None => None,
    }
}

fn line_end_at(s: &[char], i: usize) -> (r: usize)
    requires
        i <= s@.len(),
    ensures
        r as int == line_end(s@, i as int),
        i < s@.len() ==> i < r,
        r <= s@.len(),
{
    let mut j = i;
    while j < s.len() && s[j] != '\n'
        invariant
            i <= j <= s@.len(),
            line_end(s@, i as int) == line_end(s@, j as int),
        decreases s.len() - j,
    {
        j += 1;
    }
    if j < s.len() {
        j + 1
    } else {
        j
    }
}

fn is_marker_line(s: &[char], from: usize, to: usize) -> (r: bool)
    requires
        from <= to <= s@.len(),
    ensures
        r == is_marker(s@.subrange(from as int, to as int)),
{
    let line = slice_copy(s, from, to);
    let n = trim_end_len(line.as_slice());
    let ghost t = line@.take(n as int);
    let ghost m = seq!['-', '-', '-'];
    assert(t == trim_end(s@.subrange(from as int, to as int)));
    if n == 3 && line[0] == '-' && line[1] == '-' && line[2] == '-' {
        assert(t =~= m);
        true
    } else {
        assert(t.len() == n);
        if n == 3 {
            assert(t[0] == line@[0] && t[1] == line@[1] && t[2] == line@[2]);
            assert(m[0] == '-' && m[1] == '-' && m[2] == '-');
        }
        assert(t != m);
        false
    }
}

fn letter_matches(k: char, w: char) -> (r: bool)
    ensures
        r == same_letter(k, w),
{
    k == w || ('a' <= w && w <= 'z' && (k as u32) as u64 + 32 == (w as u32) as u64)
}

fn word_in_any_case(key: &[char], word: &[char]) -> (r: bool)
    ensures
        r == is_word_in_any_case(key@, word@),
{
    if key.len() != word.len() {
        return false;
    }
    let mut i: usize = 0;
    while i < key.len()
        invariant
            key@.len() == word@.len(),
            i <= key@.len(),
            forall|k: int| 0 <= k < i ==> same_letter(#[trigger] key@[k], word@[k]),
        decreases key.len() - i,
    {
        if !letter_matches(key[i], word[i]) {
            return false;
        }
        i += 1;
    }
    true
}

fn find_colon(s: &[char]) -> (r: Option<usize>)
    ensures
        match r {
            Some(k) => find_char_from(s@, ':', 0) == Some(k as int) && k < s@.len(),
            None => find_char_from(s@, ':', 0) is None,
        },
{
    let mut i: usize = 0;
    while i < s.len()
        invariant
            i <= s@.len(),
            find_char_from(s@, ':', 0) == find_char_from(s@, ':', i as int),
        decreases s.len() - i,
    {
        if s[i] == ':' {
            return Some(i);
        }
        i += 1;
    }
    None
}

fn trimmed(s: &[char]) -> (r: Vec<char>)
    ensures
        r@ == trim(s@),
{
    let a = trim_start_len(s);
    let rest = slice_copy(s, a, s.len());
    assert(rest@ =~= s@.skip(a as int));
    let b = trim_end_len(rest.as_slice());
    let out = slice_copy(rest.as_slice(), 0, b);
    assert(out@ =~= rest@.take(b as int));
    out
}

fn expression_word() -> (r: Vec<char>)
    ensures
        r@ == seq!['e', 'x', 'p', 'r', 'e', 's', 's', 'i', 'o', 'n'],
{
    let r = vec!['e', 'x', 'p', 'r', 'e', 's', 's', 'i', 'o', 'n'];
    assert(r@ =~= seq!['e', 'x', 'p', 'r', 'e', 's', 's', 'i', 'o', 'n']);
    r
}

fn source_word() -> (r: Vec<char>)
    ensures
        r@ == seq!['s', 'o', 'u', 'r', 'c', 'e'],
{
    let r = vec!['s', 'o', 'u', 'r', 'c', 'e'];
    assert(r@ =~= seq!['s', 'o', 'u', 'r', 'c', 'e']);
    r
}

/// Reads one `key: value` line of an older header.
fn read_legacy_line(
    line: &[char],
    expression: &mut Option<Vec<char>>,
    source: &mut Option<Vec<char>>,
)
    ensures
        (opt_chars(*final(expression)), opt_chars(*final(source))) == legacy_line(
            line@,
            (opt_chars(*old(expression)), opt_chars(*old(source))),
        ),
{
    match find_colon(line) {
        None => {},
        Some(k) => {
            let key = slice_copy(line, 0, k);
            assert(key@ =~= line@.take(k as int));
            let len = line.len();
            let after = slice_copy(line, k + 1, len);
            assert(after@ =~= line@.skip(k + 1));
            let value = trimmed(after.as_slice());
            if word_in_any_case(key.as_slice(), expression_word().as_slice()) {
                *expression = Some(value);
            } else if word_in_any_case(key.as_slice(), source_word().as_slice()) {
                *source = Some(value);
            }
        },
    }
}

/// The views of an optional character vector.
pub open spec fn opt_chars(o: Option<Vec<char>>) -> Option<Seq<char>> {
    match o {
        Some(v) => Some(v@),
        None => None,
    }
}

fn opt_string(o: Option<Vec<char>>) -> (r: Option<String>)
    ensures
        opt_view(r) == opt_chars(o),
{
    match o {
        Some(v) => Some(string_from(v.as_slice())),
        None => None,
    }
}

/// Splits the text of a snapshot file into its header and its contents.
pub fn split_snapshot_file(text: &str) -> (r: SnapshotFileParts)
    ensures
        has_yaml_header(text@) ==> (r.header matches SnapshotHeader::Yaml(h) && h@ == yaml_header_of(
            text@,
        )),
        !has_yaml_header(text@) ==> (r.header matches SnapshotHeader::Legacy { expression, source }
            && (opt_view(expression), opt_view(source)) == legacy_metadata_of(text@)),
        r.contents@ == contents_of(text@),
{
    let s = chars_of(text);
    let e0 = line_end_at(s.as_slice(), 0);
    let mut i = e0;
    let header;
    let start;
    if is_marker_line(s.as_slice(), 0, e0) {
        loop
            invariant
                e0 <= i <= s@.len(),
                yaml_header_end(s@, e0 as int) == yaml_header_end(s@, i as int),
                s@ == text@,
            ensures
                e0 <= i <= s@.len(),
                i >= s@.len() ==> yaml_header_end(s@, e0 as int) == (s@.len() as int, s@.len() as int),
                i < s@.len() ==> yaml_header_end(s@, e0 as int) == (i as int, line_end(s@, i as int)),
            decreases s@.len() - i,
        {
            if i >= s.len() {
                break;
            }
            let e = line_end_at(s.as_slice(), i);
            if is_marker_line(s.as_slice(), i, e) {
                break;
            }
            i = e;
        }
        let hend = i;
        start = if i >= s.len() {
            s.len()
        } else {
            line_end_at(s.as_slice(), i)
        };
        let h = slice_copy(s.as_slice(), 0, hend);
        assert(h@ =~= s@.take(hend as int));
        header = SnapshotHeader::Yaml(string_from(h.as_slice()));
    } else {
        let mut expression: Option<Vec<char>> = None;
        let mut source: Option<Vec<char>> = None;
        loop
            invariant_except_break
                legacy_header(s@, e0 as int, (None, None)) == legacy_header(
                    s@,
                    i as int,
                    (opt_chars(expression), opt_chars(source)),
                ),
            invariant
                e0 <= i <= s@.len(),
                s@ == text@,
            ensures
                legacy_header(s@, e0 as int, (None, None)) == (
                    (opt_chars(expression), opt_chars(source)),
                    i as int,
                ),
            decreases s@.len() - i,
        {
            if i >= s.len() {
                break;
            }
            let e = line_end_at(s.as_slice(), i);
            let line = slice_copy(s.as_slice(), i, e);
            let n = trim_end_len(line.as_slice());
            assert(line@.take(n as int).len() == n);
            if n == 0 {
                i = e;
                break;
            }
            read_legacy_line(line.as_slice(), &mut expression, &mut source);
            i = e;
        }
        start = i;
        header = SnapshotHeader::Legacy {
            expression: opt_string(expression),
            source: opt_string(source),
        };
    }
    assert(start as int == contents_start(text@));
    let rest = slice_copy(s.as_slice(), start, s.len());
    assert(rest@ =~= s@.skip(start as int));
    let ls = split_lines(rest.as_slice());
    let nl = vec!['\n'];
    assert(nl@ =~= seq!['\n']);
    let body = join_lines(&ls, nl.as_slice());
    SnapshotFileParts { header, contents: string_from(body.as_slice()) }
}

// ---------------------------------------------------------------------
// File names
// ---------------------------------------------------------------------
/// The position of the first `__` in `s` at or after `i`.
pub open spec fn find_separator_from(s: Seq<char>, i: int) -> Option<int>
    decreases s.len() - i,
{
    if i < 0 || i + 1 >= s.len() {
        None
    } else if s[i] == '_' && s[i + 1] == '_' {
        Some(i)
    } else {
        find_separator_from(s, i + 1)
    }
}

/// The module a snapshot file belongs to: its name up to the first `__`.
pub open spec fn module_name_of(file_name: Seq<char>) -> Seq<char> {
    match find_separator_from(file_name, 0) {
        Some(k) => file_name.take(k),
        None => file_name,
    }
}

/// The snapshot name in a file name: within the part before the first
/// `.`, what follows the first `__`, where there is one.
pub open spec fn snapshot_name_of(file_name: Seq<char>) -> Option<Seq<char>> {
    let stem = match find_char_from(file_name, '.', 0) {
        Some(k) => file_name.take(k),
        None => file_name,
    };
    match find_separator_from(stem, 0) {
        Some(k) => Some(stem.skip(k + 2)),
        None => None,
    }
}

fn find_separator(s: &[char]) -> (r: Option<usize>)
    ensures
        match r {
            Some(k) => find_separator_from(s@, 0) == Some(k as int) && k + 1 < s@.len(),
            None => find_separator_from(s@, 0) is None,
        },
{
    let mut i: usize = 0;
    let n = s.len();
    while i < n && i + 1 < n
        invariant
            n == s@.len(),
            i <= s@.len(),
            find_separator_from(s@, 0) == find_separator_from(s@, i as int),
        decreases s.len() - i,
    {
        if s[i] == '_' && s[i + 1] == '_' {
            return Some(i);
        }
        i += 1;
    }
    None
}

fn find_dot(s: &[char]) -> (r: Option<usize>)
    ensures
        match r {
            Some(k) => find_char_from(s@, '.', 0) == Some(k as int) && k < s@.len(),
            None => find_char_from(s@, '.', 0) is None,
        },
{
    let mut i: usize = 0;
    while i < s.len()
        invariant
            i <= s@.len(),
            find_char_from(s@, '.', 0) == find_char_from(s@, '.', i as int),
        decreases s.len() - i,
    {
        if s[i] == '.' {
            return Some(i);
        }
        i += 1;
    }
    None
}

/// The module a snapshot file belongs to, from the file's name.
pub fn module_name_from_file_name(file_name: &str) -> (r: String)
    ensures
        r@ == module_name_of(file_name@),
{
    let s = chars_of(file_name);
    match find_separator(s.as_slice()) {
        Some(k) => {
            let m = slice_copy(s.as_slice(), 0, k);
            assert(m@ =~= s@.take(k as int));
            string_from(m.as_slice())
        },
        None => string_from(s.as_slice()),
    }
}

/// The snapshot name, from the file's name.
pub fn snapshot_name_from_file_name(file_name: &str) -> (r: Option<String>)
    ensures
        opt_view(r) == snapshot_name_of(file_name@),
{
    let s = chars_of(file_name);
    let stem = match find_dot(s.as_slice()) {
        Some(k) => slice_copy(s.as_slice(), 0, k),
        None => slice_copy(s.as_slice(), 0, s.len()),
    };
    assert(stem@ =~= (match find_char_from(file_name@, '.', 0) {
        Some(k) => file_name@.take(k),
        None => file_name@,
    }));
    match find_separator(stem.as_slice()) {
        Some(k) => {
            let n = slice_copy(stem.as_slice(), k + 2, stem.len());
            assert(n@ =~= stem@.skip(k + 2));
            Some(string_from(n.as_slice()))
        },
        None => None,
    }
}

// ---------------------------------------------------------------------
// Reading a map as struct fields
// ---------------------------------------------------------------------
/// The first entry from `i` on whose key is not a string.
pub open spec fn first_bad_key(es: Seq<(ContentV, ContentV)>, i: int) -> Option<int>
    decreases es.len() - i,
{
    if i < 0 || i >= es.len() {
        None
    } else if !(es[i].0 is String) {
        Some(i)
    } else {
        first_bad_key(es, i + 1)
    }
}

/// The value of the last of the first `n` entries whose key is the string
/// `key`: a map read as struct fields keeps the last value of a key.
pub open spec fn field_of(es: Seq<(ContentV, ContentV)>, key: Seq<char>, n: int) -> Option<ContentV>
    decreases n,
{
    if n <= 0 || n > es.len() {
        None
    } else if es[n - 1].0 == ContentV::String(key) {
        Some(es[n - 1].1)
    } else {
        field_of(es, key, n - 1)
    }
}

/// A field read as an optional string: missing or nil is none; a
/// string is that string; anything else is an error (`None`).
pub open spec fn nullable_str(v: Option<ContentV>) -> Option<Option<Seq<char>>> {
    match v {
        None => Some(None),
        Some(c) => if is_nil_of(c) {
            Some(None)
        } else {
            match str_of(c) {
                Some(s) => Some(Some(s)),
                None => None,
            }
        },
    }
}

/// A field read as an optional `u32`: missing or nil is none; an integer
/// in range is that number; anything else is an error (`None`).
pub open spec fn nullable_u32(v: Option<ContentV>) -> Option<Option<u32>> {
    match v {
        None => Some(None),
        Some(c) => if is_nil_of(c) {
            Some(None)
        } else {
            match i64_of(c) {
                Some(n) => if 0 <= n <= u32::MAX {
                    Some(Some(n as u32))
                } else {
                    None
                },
                None => None,
            }
        },
    }
}

/// The index of the first entry whose key is not a string, where there is
/// one.
pub(crate) fn find_bad_key(es: &Vec<(Content, Content)>) -> (r: Option<usize>)
    ensures
        match r {
            Some(k) => first_bad_key(entry_views(es@), 0) == Some(k as int) && k < es@.len(),
            None => first_bad_key(entry_views(es@), 0) is None,
        },
{
    let ghost ev = entry_views(es@);
    proof {
        lemma_entry_views(es@);
    }
    let mut i: usize = 0;
    while i < es.len()
        invariant
            ev == entry_views(es@),
            ev.len() == es@.len(),
            forall|k: int| 0 <= k < es@.len() ==> #[trigger] ev[k] == (es@[k].0@, es@[k].1@),
            i <= es@.len(),
            first_bad_key(ev, 0) == first_bad_key(ev, i as int),
        decreases es.len() - i,
    {
        assert(ev[i as int] == (es@[i as int].0@, es@[i as int].1@));
        match &es[i].0 {
            Content::String(_) => {},
            _ => {
                return Some(i);
            },
        }
        i += 1;
    }
    None
}

/// A copy of the value of the last entry whose key is the string `key`.
pub(crate) fn find_field(es: &Vec<(Content, Content)>, key: &str) -> (r: Option<Content>)
    ensures
        match r {
            Some(c) => field_of(entry_views(es@), key@, es@.len() as int) == Some(c@),
            None => field_of(entry_views(es@), key@, es@.len() as int) is None,
        },
{
    let ghost ev = entry_views(es@);
    proof {
        lemma_entry_views(es@);
    }
    let mut i: usize = es.len();
    while i > 0
        invariant
            ev == entry_views(es@),
            ev.len() == es@.len(),
            forall|k: int| 0 <= k < es@.len() ==> #[trigger] ev[k] == (es@[k].0@, es@[k].1@),
            i <= es@.len(),
            field_of(ev, key@, es@.len() as int) == field_of(ev, key@, i as int),
        decreases i,
    {
        assert(ev[i - 1] == (es@[i - 1].0@, es@[i - 1].1@));
        match &es[i - 1].0 {
            Content::String(k) => {
                if str_eq(k.as_str(), key) {
                    return Some(es[i - 1].1.clone());
                }
            },
            _ => {},
        }
        i -= 1;
    }
    None
}

/// Reads a field as an optional string.
fn read_nullable_str(v: Option<Content>) -> (r: Result<Option<String>, Error>)
    ensures
        match r {
            Ok(o) => nullable_str(opt_content(v)) == Some(opt_view(o)),
            Err(e) => nullable_str(opt_content(v)) is None && e is UnexpectedDataType,
        },
{
    match v {
        None => Ok(None),
        Some(c) => if c.is_nil() {
            Ok(None)
        } else {
            match c.as_str() {
                Some(s) => Ok(Some(string_from(chars_of(s).as_slice()))),
                None => Err(Error::UnexpectedDataType),
            }
        },
    }
}

/// Reads a field as an optional `u32`.
fn read_nullable_u32(v: Option<Content>) -> (r: Result<Option<u32>, Error>)
    ensures
        match r {
            Ok(o) => nullable_u32(opt_content(v)) == Some(o),
            Err(e) => nullable_u32(opt_content(v)) is None && e is UnexpectedDataType,
        },
{
    match v {
        None => Ok(None),
        Some(c) => if c.is_nil() {
            Ok(None)
        } else {
            match c.as_i64() {
                Some(n) => if 0 <= n && n <= u32::MAX as i64 {
                    Ok(Some(n as u32))
                } else {
                    Err(Error::UnexpectedDataType)
                },
                None => Err(Error::UnexpectedDataType),
            }
        },
    }
}

/// Reads a field that must hold a string.
pub(crate) fn read_required_str(v: Option<Content>) -> (r: Result<String, Error>)
    ensures
        match r {
            Ok(s) => required_str(opt_content(v)) == Some(s@),
            Err(e) => required_str(opt_content(v)) is None && e is UnexpectedDataType,
        },
{
    match read_nullable_str(v) {
        Ok(Some(s)) => Ok(s),
        _ => Err(Error::UnexpectedDataType),
    }
}

/// Reads a field that must hold a `u32`.
pub(crate) fn read_required_u32(v: Option<Content>) -> (r: Result<u32, Error>)
    ensures
        match r {
            Ok(n) => required_u32(opt_content(v)) == Some(n),
            Err(e) => required_u32(opt_content(v)) is None && e is UnexpectedDataType,
        },
{
    match read_nullable_u32(v) {
        Ok(Some(n)) => Ok(n),
        _ => Err(Error::UnexpectedDataType),
    }
}

/// The view of an optional value.
pub open spec fn opt_content(o: Option<Content>) -> Option<ContentV> {
    match o {
        Some(c) => Some(c@),
        None => None,
    }
}

// ---------------------------------------------------------------------
// Metadata
// ---------------------------------------------------------------------
/// Snapshot metadata information.
#[derive(Debug)]
pub struct MetaData {
    /// The source file (relative to workspace root).
    pub source: Option<String>,
    /// The source line if available.
    pub assertion_line: Option<u32>,
    /// Optional human readable (non formatted) snapshot description.
    pub description: Option<String>,
    /// Optionally the expression that created the snapshot.
    pub expression: Option<String>,
    /// An optional arbitrary structured info object.
    pub info: Option<Content>,
    /// Reference to the input file.
    pub input_file: Option<String>,
}

/// Whether metadata has the given fields.
pub open spec fn metadata_is(
    md: MetaData,
    source: Option<Seq<char>>,
    assertion_line: Option<u32>,
    description: Option<Seq<char>>,
    expression: Option<Seq<char>>,
    info: Option<ContentV>,
    input_file: Option<Seq<char>>,
) -> bool {
    &&& opt_view(md.source) == source
    &&& md.assertion_line == assertion_line
    &&& opt_view(md.description) == description
    &&& opt_view(md.expression) == expression
    &&& opt_content(md.info) == info
    &&& opt_view(md.input_file) == input_file
}

/// The value of metadata: each field as a plain value.
pub struct MetaDataV {
    pub source: Option<Seq<char>>,
    pub assertion_line: Option<u32>,
    pub description: Option<Seq<char>>,
    pub expression: Option<Seq<char>>,
    pub info: Option<ContentV>,
    pub input_file: Option<Seq<char>>,
}

impl View for MetaData {
    type V = MetaDataV;

    open spec fn view(&self) -> MetaDataV {
        MetaDataV {
            source: opt_view(self.source),
            assertion_line: self.assertion_line,
            description: opt_view(self.description),
            expression: opt_view(self.expression),
            info: opt_content(self.info),
            input_file: opt_view(self.input_file),
        }
    }
}

/// Metadata as a snapshot file keeps it: all but the assertion line.
pub open spec fn persisted(md: MetaDataV) -> MetaDataV {
    MetaDataV {
        source: md.source,
        assertion_line: None,
        description: md.description,
        expression: md.expression,
        info: md.info,
        input_file: md.input_file,
    }
}

fn opt_str_equal(a: &Option<String>, b: &Option<String>) -> (r: bool)
    ensures
        r == (opt_view(*a) == opt_view(*b)),
{
    match (a, b) {
        (Some(x), Some(y)) => str_eq(x, y),
        (None, None) => true,
        _ => false,
    }
}

impl MetaData {
    /// Whether two metadata agree on every field that a snapshot file
    /// keeps.
    pub fn persisted_equal(&self, other: &MetaData) -> (r: bool)
        ensures
            r == (persisted(self@) == persisted(other@)),
    {
        let info = match (&self.info, &other.info) {
            (Some(x), Some(y)) => crate::content::same::content_equal(x, y),
            (None, None) => true,
            _ => false,
        };
        opt_str_equal(&self.source, &other.source) && opt_str_equal(&self.description, &other.description)
            && opt_str_equal(&self.expression, &other.expression) && info && opt_str_equal(
            &self.input_file,
            &other.input_file,
        )
    }
}

/// Why reading fields out of a value failed.
pub enum FieldError {
    UnexpectedDataType,
    MissingField,
    InvalidStructField(ContentV),
}

/// Whether an error is the given reason.
pub open spec fn error_is(e: Error, f: FieldError) -> bool {
    match f {
        FieldError::UnexpectedDataType => e is UnexpectedDataType,
        FieldError::MissingField => e is MissingField,
        FieldError::InvalidStructField(k) => e matches Error::InvalidStructField(c) && c@ == k,
    }
}

/// A field that must hold a string: nil or missing fails like a value of
/// another type.
pub open spec fn required_str(v: Option<ContentV>) -> Option<Seq<char>> {
    match nullable_str(v) {
        Some(Some(s)) => Some(s),
        _ => None,
    }
}

/// A field that must hold a `u32`.
pub open spec fn required_u32(v: Option<ContentV>) -> Option<u32> {
    match nullable_u32(v) {
        Some(Some(n)) => Some(n),
        _ => None,
    }
}

/// What reading metadata out of a value gives: a map with string keys
/// whose `source`, `description`, `expression` and `input_file` are
/// strings or nil where present and whose `assertion_line` is a `u32` or
/// nil; `info` is taken as it is.
pub open spec fn metadata_read(c: ContentV) -> Result<MetaDataV, FieldError> {
    match c {
        ContentV::Mapping(es) => match first_bad_key(es, 0) {
            Some(k) => Err(FieldError::InvalidStructField(es[k].0)),
            None => {
                let n = es.len() as int;
                let src = nullable_str(field_of(es, "source"@, n));
                let line = nullable_u32(field_of(es, "assertion_line"@, n));
                let desc = nullable_str(field_of(es, "description"@, n));
                let expr = nullable_str(field_of(es, "expression"@, n));
                let input = nullable_str(field_of(es, "input_file"@, n));
                if src is None || line is None || desc is None || expr is None || input is None {
                    Err(FieldError::UnexpectedDataType)
                } else {
                    Ok(
                        MetaDataV {
                            source: src.unwrap(),
                            assertion_line: line.unwrap(),
                            description: desc.unwrap(),
                            expression: expr.unwrap(),
                            info: field_of(es, "info"@, n),
                            input_file: input.unwrap(),
                        },
                    )
                }
            },
        },
        _ => Err(FieldError::UnexpectedDataType),
    }
}

/// `fs` with the field `(name, v)` added where there is a value.
pub open spec fn push_field(fs: Seq<(Seq<char>, ContentV)>, name: Seq<char>, v: Option<ContentV>) -> Seq<
    (Seq<char>, ContentV),
> {
    match v {
        Some(c) => fs.push((name, c)),
        None => fs,
    }
}

/// A string as a value, where there is one.
pub open spec fn opt_string_content(o: Option<String>) -> Option<ContentV> {
    match o {
        Some(s) => Some(ContentV::String(s@)),
        None => None,
    }
}

/// The fields of metadata as they are stored: source, expression,
/// assertion line, description, info and input file, each where it is set.
pub open spec fn metadata_fields(md: MetaData) -> Seq<(Seq<char>, ContentV)> {
    let a = push_field(Seq::empty(), "source"@, opt_string_content(md.source));
    let b = push_field(a, "expression"@, opt_string_content(md.expression));
    let c = push_field(
        b,
        "assertion_line"@,
        match md.assertion_line {
            Some(n) => Some(ContentV::U32(n)),
            None => None,
        },
    );
    let d = push_field(c, "description"@, opt_string_content(md.description));
    let e = push_field(d, "info"@, opt_content(md.info));
    push_field(e, "input_file"@, opt_string_content(md.input_file))
}

fn own(s: &str) -> (r: String)
    ensures
        r@ == s@,
{
    string_from(chars_of(s).as_slice())
}

impl Default for MetaData {
    fn default() -> (r: MetaData)
        ensures
            metadata_is(r, None, None, None, None, None, None),
    {
        MetaData {
            source: None,
            assertion_line: None,
            description: None,
            expression: None,
            info: None,
            input_file: None,
        }
    }
}

impl MetaData {
    /// Metadata with the given fields.
    pub fn new(
        source: Option<String>,
        assertion_line: Option<u32>,
        description: Option<String>,
        expression: Option<String>,
        info: Option<Content>,
        input_file: Option<String>,
    ) -> (r: MetaData)
        ensures
            r.source == source,
            r.assertion_line == assertion_line,
            r.description == description,
            r.expression == expression,
            r.info == info,
            r.input_file == input_file,
    {
        MetaData { source, assertion_line, description, expression, info, input_file }
    }

    /// The metadata an older header gives: its expression and source.
    pub fn from_legacy(expression: Option<String>, source: Option<String>) -> (r: MetaData)
        ensures
            metadata_is(r, opt_view(source), None, None, opt_view(expression), None, None),
    {
        MetaData {
            source,
            assertion_line: None,
            description: None,
            expression,
            info: None,
            input_file: None,
        }
    }

    /// Returns the source path, as stored.
    pub fn source(&self) -> (r: Option<&str>)
        ensures
            match r {
                Some(s) => self.source matches Some(t) && s@ == t@,
                None => self.source is None,
            },
    {
        match &self.source {
            Some(s) => Some(s.as_str()),
            None => None,
        }
    }

    /// Returns the assertion line.
    pub fn assertion_line(&self) -> (r: Option<u32>)
        ensures
            r == self.assertion_line,
    {
        self.assertion_line
    }

    /// Returns the expression that created the snapshot.
    pub fn expression(&self) -> (r: Option<&str>)
        ensures
            match r {
                Some(s) => self.expression matches Some(t) && s@ == t@,
                None => self.expression is None,
            },
    {
        match &self.expression {
            Some(s) => Some(s.as_str()),
            None => None,
        }
    }

    /// Returns the description, where it is set and not empty.
    pub fn description(&self) -> (r: Option<&str>)
        ensures
            match r {
                Some(s) => self.description matches Some(t) && s@ == t@ && t@.len() > 0,
                None => self.description is None || self.description.unwrap()@.len() == 0,
            },
    {
        match &self.description {
            Some(s) => if s.as_str().unicode_len() == 0 {
                None
            } else {
                Some(s.as_str())
            },
            None => None,
        }
    }

    /// Returns the embedded info.
    pub fn private_info(&self) -> (r: Option<&Content>)
        ensures
            r == match self.info {
                Some(c) => Some(&c),
                None => None::<&Content>,
            },
    {
        match &self.info {
            Some(c) => Some(c),
            None => None,
        }
    }

    /// Returns the input file reference.
    pub fn input_file(&self) -> (r: Option<&str>)
        ensures
            match r {
                Some(s) => self.input_file matches Some(t) && s@ == t@,
                None => self.input_file is None,
            },
    {
        match &self.input_file {
            Some(s) => Some(s.as_str()),
            None => None,
        }
    }

    /// Reads metadata from a map of fields.  The map must have string
    /// keys; `source`, `description`, `expression` and `input_file` must be
    /// strings or nil where present, `assertion_line` a `u32` or nil; `info`
    /// is kept as it is.
    pub fn from_content(content: Content) -> (r: Result<MetaData, Error>)
        ensures
            match metadata_read(content@) {
                Ok(v) => r matches Ok(md) && md@ == v,
                Err(f) => r matches Err(e) && error_is(e, f),
            },
    {
        match content {
            Content::Mapping(es) => {
                proof {
                    lemma_entry_views(es@);
                }
                match find_bad_key(&es) {
                    Some(k) => {
                        return Err(Error::InvalidStructField(es[k].0.clone()));
                    },
                    None => {},
                }
                let source = read_nullable_str(find_field(&es, "source"));
                let source = match source {
                    Ok(v) => v,
                    Err(e) => {
                        return Err(e);
                    },
                };
                let line = match read_nullable_u32(find_field(&es, "assertion_line")) {
                    Ok(v) => v,
                    Err(e) => {
                        return Err(e);
                    },
                };
                let description = match read_nullable_str(find_field(&es, "description")) {
                    Ok(v) => v,
                    Err(e) => {
                        return Err(e);
                    },
                };
                let expression = match read_nullable_str(find_field(&es, "expression")) {
                    Ok(v) => v,
                    Err(e) => {
                        return Err(e);
                    },
                };
                let info = find_field(&es, "info");
                let input_file = match read_nullable_str(find_field(&es, "input_file")) {
                    Ok(v) => v,
                    Err(e) => {
                        return Err(e);
                    },
                };
                Ok(MetaData {
                    source,
                    assertion_line: line,
                    description,
                    expression,
                    info,
                    input_file,
                })
            },
            _ => Err(Error::UnexpectedDataType),
        }
    }

    /// The metadata as a struct value, with only the fields that are set.
    pub fn as_content(&self) -> (r: Content)
        ensures
            r@ == ContentV::Struct("MetaData"@, metadata_fields(*self)),
    {
        let mut fields: Vec<(String, Content)> = Vec::new();
        assert(crate::content::field_views(fields@) =~= Seq::<(Seq<char>, ContentV)>::empty());
        push_opt_field(&mut fields, "source", string_content(&self.source));
        push_opt_field(&mut fields, "expression", string_content(&self.expression));
        let line = match self.assertion_line {
            Some(n) => Some(Content::U32(n)),
            None => None,
        };
        push_opt_field(&mut fields, "assertion_line", line);
        push_opt_field(&mut fields, "description", string_content(&self.description));
        let info = match &self.info {
            Some(c) => Some(c.clone()),
            None => None,
        };
        push_opt_field(&mut fields, "info", info);
        push_opt_field(&mut fields, "input_file", string_content(&self.input_file));
        Content::Struct(own("MetaData"), fields)
    }
}

/// A string as a value, where there is one.
fn string_content(o: &Option<String>) -> (r: Option<Content>)
    ensures
        opt_content(r) == opt_string_content(*o),
{
    match o {
        Some(s) => Some(Content::String(own(s.as_str()))),
        None => None,
    }
}

/// Adds the field `(name, v)` where there is a value.
fn push_opt_field(fields: &mut Vec<(String, Content)>, name: &str, v: Option<Content>)
    ensures
        crate::content::field_views(final(fields)@) == push_field(
            crate::content::field_views(old(fields)@),
            name@,
            opt_content(v),
        ),
{
    match v {
        Some(c) => {
            let ghost before = fields@;
            fields.push((own(name), c));
            assert(fields@.drop_last() =~= before);
        },
        None => {},
    }
}

// ---------------------------------------------------------------------
// Stored snapshots
// ---------------------------------------------------------------------
/// A stored snapshot: the module and name it was stored under, its
/// metadata and its contents.
#[derive(Debug)]
pub struct Snapshot {
    module_name: String,
    snapshot_name: Option<String>,
    metadata: MetaData,
    snapshot: SnapshotContents,
    kind: TextSnapshotKind,
}

/// Where the text of a snapshot is kept: inline in the source, or in a
/// snapshot file of its own.
#[derive(Debug, Clone, Copy, PartialEq, Eq, Structural)]
pub enum TextSnapshotKind {
    Inline,
    File,
}

/// The value of a stored snapshot.
pub struct SnapshotV {
    pub module_name: Seq<char>,
    pub snapshot_name: Option<Seq<char>>,
    pub metadata: MetaDataV,
    pub contents: Seq<char>,
}

impl View for Snapshot {
    type V = SnapshotV;

    open spec fn view(&self) -> SnapshotV {
        SnapshotV {
            module_name: self.stored_module_name(),
            snapshot_name: self.stored_snapshot_name(),
            metadata: self.stored_metadata()@,
            contents: self.stored_contents()@,
        }
    }
}

/// What reading a snapshot out of a value gives: a map with string keys
/// holding the string `module_name`, the optional string `snapshot_name`,
/// the metadata under `metadata` and the string `snapshot`; the first of
/// these that fails decides the error.
pub open spec fn snapshot_read(c: ContentV) -> Result<SnapshotV, FieldError> {
    match c {
        ContentV::Mapping(es) => match first_bad_key(es, 0) {
            Some(k) => Err(FieldError::InvalidStructField(es[k].0)),
            None => {
                let n = es.len() as int;
                match required_str(field_of(es, "module_name"@, n)) {
                    None => Err(FieldError::UnexpectedDataType),
                    Some(module_name) => match nullable_str(field_of(es, "snapshot_name"@, n)) {
                        None => Err(FieldError::UnexpectedDataType),
                        Some(snapshot_name) => match field_of(es, "metadata"@, n) {
                            None => Err(FieldError::MissingField),
                            Some(m) => match metadata_read(m) {
                                Err(f) => Err(f),
                                Ok(metadata) => match required_str(field_of(es, "snapshot"@, n)) {
                                    None => Err(FieldError::UnexpectedDataType),
                                    Some(contents) => Ok(
                                        SnapshotV { module_name, snapshot_name, metadata, contents },
                                    ),
                                },
                            },
                        },
                    },
                }
            },
        },
        _ => Err(FieldError::UnexpectedDataType),
    }
}

/// The fields of a snapshot as they are stored: the module name, the
/// snapshot name where there is one, the metadata and the contents.
pub open spec fn snapshot_fields(s: SnapshotV, metadata: Seq<(Seq<char>, ContentV)>) -> Seq<
    (Seq<char>, ContentV),
> {
    let a = seq![("module_name"@, ContentV::String(s.module_name))];
    let b = push_field(
        a,
        "snapshot_name"@,
        match s.snapshot_name {
            Some(n) => Some(ContentV::String(n)),
            None => None,
        },
    );
    b.push(("metadata"@, ContentV::Struct("MetaData"@, metadata))).push(
        ("snapshot"@, ContentV::String(s.contents)),
    )
}

impl Snapshot {
    /// A snapshot from its parts.
    pub fn from_components(
        module_name: String,
        snapshot_name: Option<String>,
        metadata: MetaData,
        snapshot: SnapshotContents,
    ) -> (r: Snapshot)
        ensures
            r.stored_module_name() == module_name@,
            r.stored_snapshot_name() == opt_view(snapshot_name),
            r.stored_metadata() == metadata,
            r.stored_contents() == snapshot,
            r.stored_kind() == TextSnapshotKind::File,
    {
        Snapshot { module_name, snapshot_name, metadata, snapshot, kind: TextSnapshotKind::File }
    }

    /// The same snapshot, kept where `kind` says.
    pub fn with_kind(self, kind: TextSnapshotKind) -> (r: Snapshot)
        ensures
            r@ == self@,
            r.stored_metadata() == self.stored_metadata(),
            r.stored_contents() == self.stored_contents(),
            r.stored_kind() == kind,
    {
        Snapshot { kind, ..self }
    }

    /// The snapshot stored in a file with the given name, split into its
    /// parts, with the metadata read from its header.
    pub fn from_file_parts(file_name: &str, parts: SnapshotFileParts, metadata: MetaData) -> (r:
        Snapshot)
        ensures
            r.stored_module_name() == module_name_of(file_name@),
            r.stored_snapshot_name() == snapshot_name_of(file_name@),
            r.stored_metadata() == metadata,
            r.stored_contents()@ == crate::text::crlf_to_lf(parts.contents@),
            r.stored_kind() == TextSnapshotKind::File,
    {
        let module_name = module_name_from_file_name(file_name);
        let snapshot_name = snapshot_name_from_file_name(file_name);
        let contents = SnapshotContents::from_text(parts.contents.as_str());
        Snapshot { module_name, snapshot_name, metadata, snapshot: contents, kind: TextSnapshotKind::File }
    }

    /// Reads a snapshot from a map of fields: `module_name` and `snapshot`
    /// must be strings, `snapshot_name` a string or nil where present, and
    /// `metadata` must be present and hold metadata.  Such records keep
    /// inline snapshots, so the snapshot read is an inline one.
    pub fn from_content(content: Content) -> (r: Result<Snapshot, Error>)
        ensures
            match snapshot_read(content@) {
                Ok(v) => r matches Ok(s) && s@ == v && s.stored_kind() == TextSnapshotKind::Inline,
                Err(f) => r matches Err(e) && error_is(e, f),
            },
    {
        match content {
            Content::Mapping(es) => {
                proof {
                    lemma_entry_views(es@);
                }
                match find_bad_key(&es) {
                    Some(k) => {
                        return Err(Error::InvalidStructField(es[k].0.clone()));
                    },
                    None => {},
                }
                let module_name = match read_required_str(find_field(&es, "module_name")) {
                    Ok(v) => v,
                    Err(e) => {
                        return Err(e);
                    },
                };
                let snapshot_name = match read_nullable_str(find_field(&es, "snapshot_name")) {
                    Ok(v) => v,
                    Err(e) => {
                        return Err(e);
                    },
                };
                let metadata = match find_field(&es, "metadata") {
                    None => {
                        return Err(Error::MissingField);
                    },
                    Some(m) => match MetaData::from_content(m) {
                        Ok(md) => md,
                        Err(e) => {
                            return Err(e);
                        },
                    },
                };
                let contents = match read_required_str(find_field(&es, "snapshot")) {
                    Ok(v) => v,
                    Err(e) => {
                        return Err(e);
                    },
                };
                Ok(
                    Snapshot {
                        module_name,
                        snapshot_name,
                        metadata,
                        snapshot: SnapshotContents::from_stored(contents),
                        kind: TextSnapshotKind::Inline,
                    },
                )
            },
            _ => Err(Error::UnexpectedDataType),
        }
    }

    /// The snapshot as a struct value: the module name, the snapshot name
    /// where there is one, the metadata and the contents.
    pub fn as_content(&self) -> (r: Content)
        ensures
            r@ == ContentV::Struct(
                "Content"@,
                snapshot_fields(self@, metadata_fields(self.stored_metadata())),
            ),
    {
        let mut fields: Vec<(String, Content)> = Vec::new();
        assert(crate::content::field_views(fields@) =~= Seq::<(Seq<char>, ContentV)>::empty());
        push_opt_field(&mut fields, "module_name", Some(Content::String(own(self.module_name.as_str()))));
        push_opt_field(&mut fields, "snapshot_name", string_content(&self.snapshot_name));
        push_opt_field(&mut fields, "metadata", Some(self.metadata.as_content()));
        push_opt_field(
            &mut fields,
            "snapshot",
            Some(Content::String(own(self.snapshot.as_str()))),
        );
        let r = Content::Struct(own("Content"), fields);
        proof {
            let a = seq![("module_name"@, ContentV::String(self.module_name@))];
            assert(push_field(Seq::empty(), "module_name"@, Some(ContentV::String(self.module_name@))) =~= a);
        }
        r
    }

    /// The module name.
    pub closed spec fn stored_module_name(&self) -> Seq<char> {
        self.module_name@
    }

    /// The snapshot name.
    pub closed spec fn stored_snapshot_name(&self) -> Option<Seq<char>> {
        opt_view(self.snapshot_name)
    }

    /// The metadata.
    pub closed spec fn stored_metadata(&self) -> MetaData {
        self.metadata
    }

    /// The contents.
    pub closed spec fn stored_contents(&self) -> SnapshotContents {
        self.snapshot
    }

    /// Where the text is kept.
    pub closed spec fn stored_kind(&self) -> TextSnapshotKind {
        self.kind
    }

    /// Where the text is kept.
    pub fn kind(&self) -> (r: TextSnapshotKind)
        ensures
            r == self.stored_kind(),
    {
        self.kind
    }

    /// Returns the module name.
    pub fn module_name(&self) -> (r: &str)
        ensures
            r@ == self.stored_module_name(),
    {
        self.module_name.as_str()
    }

    /// Returns the snapshot name.
    pub fn snapshot_name(&self) -> (r: Option<&str>)
        ensures
            match r {
                Some(s) => self.stored_snapshot_name() == Some(s@),
                None => self.stored_snapshot_name() is None,
            },
    {
        match &self.snapshot_name {
            Some(s) => Some(s.as_str()),
            None => None,
        }
    }

    /// The metadata in the snapshot.
    pub fn metadata(&self) -> (r: &MetaData)
        ensures
            *r == self.stored_metadata(),
    {
        &self.metadata
    }

    /// The snapshot contents.
    pub fn contents(&self) -> (r: &SnapshotContents)
        ensures
            *r == self.stored_contents(),
    {
        &self.snapshot
    }

    /// The snapshot contents as text.
    pub fn contents_str(&self) -> (r: &str)
        ensures
            r@ == self.stored_contents()@,
    {
        self.snapshot.as_str()
    }
}

// ---------------------------------------------------------------------
// A written file reads back
// ---------------------------------------------------------------------
/// Whether no line of a header after its first is a marker line.
pub open spec fn inner_lines_unmarked(h: Seq<char>) -> bool {
    forall|i: int|
        0 < i < h.len() && #[trigger] h[i - 1] == '\n' ==> !is_marker(h.subrange(i, line_end(h, i)))
}

/// Within a prefix that ends in a line break, lines end as they do in the
/// whole text, after a line break of the prefix.
proof fn lemma_line_end_in_prefix(h: Seq<char>, f: Seq<char>, i: int)
    requires
        h.len() > 0,
        h.last() == '\n',
        h.len() <= f.len(),
        f.take(h.len() as int) == h,
        0 <= i < h.len(),
    ensures
        line_end(f, i) == line_end(h, i),
        i < line_end(h, i) <= h.len(),
        h[line_end(h, i) - 1] == '\n',
    decreases h.len() - i,
{
    assert(f[i] == h[i]);
    if h[i] != '\n' {
        assert(i + 1 < h.len());
        lemma_line_end_in_prefix(h, f, i + 1);
    }
}

/// A header scanned from one of its line starts ends where the marker
/// line after it begins.
proof fn lemma_header_scan(h: Seq<char>, f: Seq<char>, i: int)
    requires
        h.len() > 0,
        h.last() == '\n',
        h.len() + 4 <= f.len(),
        f.take(h.len() as int) == h,
        f.subrange(h.len() as int, h.len() as int + 4) == seq!['-', '-', '-', '\n'],
        inner_lines_unmarked(h),
        0 < i <= h.len(),
        h[i - 1] == '\n',
    ensures
        yaml_header_end(f, i) == (h.len() as int, h.len() as int + 4),
    decreases h.len() - i,
{
    if i == h.len() {
        assert(f[i] == '-' && f[i + 1] == '-' && f[i + 2] == '-' && f[i + 3] == '\n') by {
            assert(f.subrange(h.len() as int, h.len() as int + 4)[0] == f[i]);
            assert(f.subrange(h.len() as int, h.len() as int + 4)[1] == f[i + 1]);
            assert(f.subrange(h.len() as int, h.len() as int + 4)[2] == f[i + 2]);
            assert(f.subrange(h.len() as int, h.len() as int + 4)[3] == f[i + 3]);
        }
        assert(line_end(f, i + 3) == i + 4);
        assert(line_end(f, i + 2) == i + 4);
        assert(line_end(f, i + 1) == i + 4);
        assert(line_end(f, i) == i + 4);
        lemma_marker_line();
    } else {
        lemma_line_end_in_prefix(h, f, i);
        let e = line_end(h, i);
        assert(f.subrange(i, e) =~= h.subrange(i, e));
        assert(!is_marker(h.subrange(i, line_end(h, i))));
        lemma_header_scan(h, f, e);
    }
}

/// The line `---\n` is a marker.
proof fn lemma_marker_line()
    ensures
        is_marker(seq!['-', '-', '-', '\n']),
{
    let m = seq!['-', '-', '-', '\n'];
    assert(crate::text::is_ws('\n'));
    assert(!crate::text::is_ws('-'));
    assert(m.drop_last() =~= seq!['-', '-', '-']);
    assert(trim_end(m) == trim_end(seq!['-', '-', '-']));
}

/// A snapshot file written as a YAML header (a `---` line, then lines none
/// of which is `---`), a `---` line, the contents and a line break reads
/// back as that header and those contents, where no `\r` stands before a
/// line break of the contents.
pub proof fn lemma_written_file_reads_back(header: Seq<char>, contents: Seq<char>)
    requires
        header.len() >= 4,
        header.take(4) == seq!['-', '-', '-', '\n'],
        header.last() == '\n',
        inner_lines_unmarked(header),
        crlf_free(contents + seq!['\n']),
    ensures
        has_yaml_header(header + seq!['-', '-', '-', '\n'] + contents + seq!['\n']),
        yaml_header_of(header + seq!['-', '-', '-', '\n'] + contents + seq!['\n']) == header,
        contents_of(header + seq!['-', '-', '-', '\n'] + contents + seq!['\n']) == contents,
{
    let f = header + seq!['-', '-', '-', '\n'] + contents + seq!['\n'];
    let n = header.len() as int;
    assert(f.take(n) =~= header);
    assert(f.subrange(n, n + 4) =~= seq!['-', '-', '-', '\n']);
    // the first line is the header's first line, a marker
    assert(header[3] == '\n' && header[0] == '-' && header[1] == '-' && header[2] == '-') by {
        assert(header.take(4)[0] == header[0]);
        assert(header.take(4)[1] == header[1]);
        assert(header.take(4)[2] == header[2]);
        assert(header.take(4)[3] == header[3]);
    }
    lemma_line_end_in_prefix(header, f, 3);
    lemma_line_end_in_prefix(header, f, 2);
    lemma_line_end_in_prefix(header, f, 1);
    lemma_line_end_in_prefix(header, f, 0);
    assert(line_end(f, 0) == 4);
    assert(f.subrange(0, 4) =~= seq!['-', '-', '-', '\n']);
    lemma_marker_line();
    lemma_header_scan(header, f, 4);
    assert(f.skip(n + 4) =~= contents + seq!['\n']);
    lemma_terminated_lines_join(contents);
}

// ---------------------------------------------------------------------
// Stored values read back
// ---------------------------------------------------------------------
/// The value of the last field of `fs` named `key`.
pub open spec fn field_named(fs: Seq<(Seq<char>, ContentV)>, key: Seq<char>) -> Option<ContentV>
    decreases fs.len(),
{
    if fs.len() == 0 {
        None
    } else if fs.last().0 == key {
        Some(fs.last().1)
    } else {
        field_named(fs.drop_last(), key)
    }
}

/// An optional value as it reads back once written out.
pub open spec fn opt_stored(v: Option<ContentV>) -> Option<ContentV> {
    match v {
        Some(c) => Some(struct_as_map(c)),
        None => None,
    }
}

/// Struct fields read as a map have string keys only, and a key finds the
/// last field of its name.
pub(crate) proof fn lemma_fields_read(fs: Seq<(Seq<char>, ContentV)>, key: Seq<char>, i: int)
    requires
        0 <= i <= fs.len(),
    ensures
        first_bad_key(fields_as_entries(fs), i) is None,
        field_of(fields_as_entries(fs), key, i) == opt_stored(field_named(fs.take(i), key)),
    decreases fs.len() - i,
{
    lemma_fields_as_entries(fs);
    if i < fs.len() {
        lemma_fields_read(fs, key, i + 1);
    }
    lemma_field_of_prefix(fs, key, i);
}

/// Looking a key up among the first `i` entries is looking it up among the
/// first `i` fields.
pub(crate) proof fn lemma_field_of_prefix(fs: Seq<(Seq<char>, ContentV)>, key: Seq<char>, i: int)
    requires
        0 <= i <= fs.len(),
    ensures
        field_of(fields_as_entries(fs), key, i) == opt_stored(field_named(fs.take(i), key)),
    decreases i,
{
    lemma_fields_as_entries(fs);
    if i > 0 {
        lemma_field_of_prefix(fs, key, i - 1);
        assert(fs.take(i).drop_last() =~= fs.take(i - 1));
        assert(fs.take(i).last() == fs[i - 1]);
    }
}

/// A field added where there is a value is the last of its name.
proof fn lemma_field_named_push(
    fs: Seq<(Seq<char>, ContentV)>,
    name: Seq<char>,
    v: Option<ContentV>,
    key: Seq<char>,
)
    ensures
        field_named(push_field(fs, name, v), key) == if v is Some && name == key {
            v
        } else {
            field_named(fs, key)
        },
{
    if v is Some {
        assert(push_field(fs, name, v).drop_last() =~= fs);
    }
}

/// The names under which metadata is stored are distinct.
proof fn lemma_metadata_names()
    ensures
        "source"@ != "expression"@,
        "source"@ != "assertion_line"@,
        "source"@ != "description"@,
        "source"@ != "info"@,
        "source"@ != "input_file"@,
        "expression"@ != "assertion_line"@,
        "expression"@ != "description"@,
        "expression"@ != "info"@,
        "expression"@ != "input_file"@,
        "assertion_line"@ != "description"@,
        "assertion_line"@ != "info"@,
        "assertion_line"@ != "input_file"@,
        "description"@ != "info"@,
        "description"@ != "input_file"@,
        "info"@ != "input_file"@,
{
    reveal_strlit("source");
    reveal_strlit("expression");
    reveal_strlit("assertion_line");
    reveal_strlit("description");
    reveal_strlit("info");
    reveal_strlit("input_file");
    assert("source"@.len() != "assertion_line"@.len());
    assert("info"@.len() != "input_file"@.len());
    assert("expression"@[0] != "input_file"@[0]);
    assert("description"@[0] != "info"@[0]);
}

/// The last field of stored metadata with a given name.
proof fn lemma_metadata_field(md: MetaData, key: Seq<char>)
    ensures
        field_named(metadata_fields(md), key) == if key == "input_file"@ && md.input_file is Some {
            opt_string_content(md.input_file)
        } else if key == "info"@ && md.info is Some {
            opt_content(md.info)
        } else if key == "description"@ && md.description is Some {
            opt_string_content(md.description)
        } else if key == "assertion_line"@ && md.assertion_line is Some {
            Some(ContentV::U32(md.assertion_line.unwrap()))
        } else if key == "expression"@ && md.expression is Some {
            opt_string_content(md.expression)
        } else if key == "source"@ && md.source is Some {
            opt_string_content(md.source)
        } else {
            None
        },
{
    let line = match md.assertion_line {
        Some(n) => Some(ContentV::U32(n)),
        None => None,
    };
    let e = Seq::<(Seq<char>, ContentV)>::empty();
    let a = push_field(e, "source"@, opt_string_content(md.source));
    let b = push_field(a, "expression"@, opt_string_content(md.expression));
    let c = push_field(b, "assertion_line"@, line);
    let d = push_field(c, "description"@, opt_string_content(md.description));
    let f = push_field(d, "info"@, opt_content(md.info));
    lemma_field_named_push(e, "source"@, opt_string_content(md.source), key);
    lemma_field_named_push(a, "expression"@, opt_string_content(md.expression), key);
    lemma_field_named_push(b, "assertion_line"@, line, key);
    lemma_field_named_push(c, "description"@, opt_string_content(md.description), key);
    lemma_field_named_push(d, "info"@, opt_content(md.info), key);
    lemma_field_named_push(f, "input_file"@, opt_string_content(md.input_file), key);
}

/// Each field of metadata as it is stored.
proof fn lemma_metadata_field_values(md: MetaData)
    ensures
        field_named(metadata_fields(md), "source"@) == opt_string_content(md.source),
        field_named(metadata_fields(md), "expression"@) == opt_string_content(md.expression),
        field_named(metadata_fields(md), "assertion_line"@) == match md.assertion_line {
            Some(n) => Some(ContentV::U32(n)),
            None => None,
        },
        field_named(metadata_fields(md), "description"@) == opt_string_content(md.description),
        field_named(metadata_fields(md), "info"@) == opt_content(md.info),
        field_named(metadata_fields(md), "input_file"@) == opt_string_content(md.input_file),
{
    lemma_metadata_names();
    lemma_metadata_field(md, "source"@);
    lemma_metadata_field(md, "expression"@);
    lemma_metadata_field(md, "assertion_line"@);
    lemma_metadata_field(md, "description"@);
    lemma_metadata_field(md, "info"@);
    lemma_metadata_field(md, "input_file"@);
}

/// Metadata as it reads back once written out: the same fields, with each
/// struct inside its info read as a map.
pub open spec fn metadata_stored(md: MetaDataV) -> MetaDataV {
    MetaDataV {
        source: md.source,
        assertion_line: md.assertion_line,
        description: md.description,
        expression: md.expression,
        info: opt_stored(md.info),
        input_file: md.input_file,
    }
}

/// Metadata written as a struct reads back, once that struct is read as a
/// map of its fields, as the same metadata (each struct inside its info
/// read as a map too).
pub proof fn lemma_metadata_reads_back(md: MetaData)
    ensures
        metadata_read(struct_as_map(ContentV::Struct("MetaData"@, metadata_fields(md))))
            == Ok::<MetaDataV, FieldError>(metadata_stored(md@)),
{
    let fs = metadata_fields(md);
    let es = fields_as_entries(fs);
    let n = es.len() as int;
    lemma_fields_as_entries(fs);
    lemma_metadata_field_values(md);
    assert(fs.take(fs.len() as int) =~= fs);
    lemma_fields_read(fs, "source"@, 0);
    lemma_field_of_prefix(fs, "source"@, n);
    lemma_field_of_prefix(fs, "expression"@, n);
    lemma_field_of_prefix(fs, "assertion_line"@, n);
    lemma_field_of_prefix(fs, "description"@, n);
    lemma_field_of_prefix(fs, "info"@, n);
    lemma_field_of_prefix(fs, "input_file"@, n);
}

/// The names under which a snapshot is stored are distinct.
proof fn lemma_snapshot_names()
    ensures
        "module_name"@ != "snapshot_name"@,
        "module_name"@ != "metadata"@,
        "module_name"@ != "snapshot"@,
        "snapshot_name"@ != "metadata"@,
        "snapshot_name"@ != "snapshot"@,
        "metadata"@ != "snapshot"@,
{
    reveal_strlit("module_name");
    reveal_strlit("snapshot_name");
    reveal_strlit("metadata");
    reveal_strlit("snapshot");
    assert("module_name"@.len() != "snapshot_name"@.len());
    assert("module_name"@.len() != "metadata"@.len());
    assert("module_name"@.len() != "snapshot"@.len());
    assert("snapshot_name"@.len() != "metadata"@.len());
    assert("snapshot_name"@.len() != "snapshot"@.len());
    assert("metadata"@[0] != "snapshot"@[0]);
}

/// The last field of a stored snapshot with a given name.
proof fn lemma_snapshot_field(v: SnapshotV, md: Seq<(Seq<char>, ContentV)>, key: Seq<char>)
    ensures
        field_named(snapshot_fields(v, md), key) == if key == "snapshot"@ {
            Some(ContentV::String(v.contents))
        } else if key == "metadata"@ {
            Some(ContentV::Struct("MetaData"@, md))
        } else if key == "snapshot_name"@ && v.snapshot_name is Some {
            Some(ContentV::String(v.snapshot_name.unwrap()))
        } else if key == "module_name"@ {
            Some(ContentV::String(v.module_name))
        } else {
            None
        },
{
    let name = match v.snapshot_name {
        Some(n) => Some(ContentV::String(n)),
        None => None,
    };
    let a = seq![("module_name"@, ContentV::String(v.module_name))];
    let b = push_field(a, "snapshot_name"@, name);
    let c = b.push(("metadata"@, ContentV::Struct("MetaData"@, md)));
    let d = c.push(("snapshot"@, ContentV::String(v.contents)));
    assert(a.drop_last() =~= Seq::<(Seq<char>, ContentV)>::empty());
    assert(c.drop_last() =~= b);
    assert(d.drop_last() =~= c);
    assert(field_named(Seq::<(Seq<char>, ContentV)>::empty(), key) is None);
    assert(field_named(a, key) == if key == "module_name"@ {
        Some(ContentV::String(v.module_name))
    } else {
        None
    });
    lemma_field_named_push(a, "snapshot_name"@, name, key);
    assert(field_named(c, key) == if key == "metadata"@ {
        Some(ContentV::Struct("MetaData"@, md))
    } else {
        field_named(b, key)
    });
    assert(field_named(d, key) == if key == "snapshot"@ {
        Some(ContentV::String(v.contents))
    } else {
        field_named(c, key)
    });
}

/// A snapshot as it reads back once written out: the same, with its
/// metadata read back.
pub open spec fn snapshot_stored(v: SnapshotV) -> SnapshotV {
    SnapshotV {
        module_name: v.module_name,
        snapshot_name: v.snapshot_name,
        metadata: metadata_stored(v.metadata),
        contents: v.contents,
    }
}

/// A snapshot written as a struct reads back, once each struct in it is
/// read as a map of its fields, as the same snapshot.
pub proof fn lemma_snapshot_reads_back(s: Snapshot)
    ensures
        snapshot_read(
            struct_as_map(
                ContentV::Struct("Content"@, snapshot_fields(s@, metadata_fields(s.stored_metadata()))),
            ),
        ) == Ok::<SnapshotV, FieldError>(snapshot_stored(s@)),
{
    let v = s@;
    let md = metadata_fields(s.stored_metadata());
    let fs = snapshot_fields(v, md);
    let es = fields_as_entries(fs);
    let n = es.len() as int;
    lemma_fields_as_entries(fs);
    lemma_snapshot_names();
    lemma_snapshot_field(v, md, "module_name"@);
    lemma_snapshot_field(v, md, "snapshot_name"@);
    lemma_snapshot_field(v, md, "metadata"@);
    lemma_snapshot_field(v, md, "snapshot"@);
    lemma_metadata_reads_back(s.stored_metadata());
    assert(fs.take(fs.len() as int) =~= fs);
    lemma_fields_read(fs, "module_name"@, 0);
    lemma_field_of_prefix(fs, "module_name"@, n);
    lemma_field_of_prefix(fs, "snapshot_name"@, n);
    lemma_field_of_prefix(fs, "metadata"@, n);
    lemma_field_of_prefix(fs, "snapshot"@, n);
}

} // verus!
