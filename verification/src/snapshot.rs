//! Snapshot contents: the normalization of inline snapshot literals, their
//! rendering back into source form, and the comparison of two snapshots.
use vstd::prelude::*;

use crate::text::{
    byte_len_of_prefix, contains_char, crlf_to_lf, get_prefix_at_byte, is_ws, normalize_newlines,
    push_all, push_spaces, push_str,
    byte_len, chars_of, deep, get_suffix_at_byte, join, join_lines, leading_ws, lines, prefix_at_byte,
    slice_copy, spaces, split_lines, string_from, suffix_at_byte, trim, trim_end, trim_end_len,
    trim_start, trim_start_len, all_ws, crlf_free, drop_final_empty, ends_cr, has_non_ws,
    lemma_join_pieces, lemma_leading_ws_spaces, lemma_lines_are_pieces, lemma_pieces_append_line,
    lemma_pieces_shape, lemma_spaces_ws, lemma_suffix_after_spaces, lemma_trim_end_idempotent,
    lemma_trim_end_keeps, lemma_trim_end_prefix, lemma_trim_end_ws_suffix, no_newline, pieces,
    lemma_pieces_of_line, lemma_trim_start_keeps, lemma_trim_start_ws_prefix,
};

verus! {

/// The least leading whitespace over the non-empty lines of `ls`, if any
/// line is non-empty.
pub open spec fn min_lead(ls: Seq<Seq<char>>) -> Option<nat>
    decreases ls.len(),
{
    if ls.len() == 0 {
        None
    } else {
        let rest = min_lead(ls.drop_last());
        let l = ls.last();
        if l.len() == 0 {
            rest
        } else {
            match rest {
                None => Some(leading_ws(l)),
                Some(m) => Some(
                    if leading_ws(l) < m {
                        leading_ws(l)
                    } else {
                        m
                    },
                ),
            }
        }
    }
}

/// The indentation shared by the lines of a multi-line snapshot literal:
/// zero for a single line, else the least leading whitespace of its
/// non-empty lines once trailing whitespace is gone.
pub open spec fn min_indentation_of(s: Seq<char>) -> nat {
    let ls = lines(trim_end(s));
    if ls.len() <= 1 {
        0
    } else {
        match min_lead(ls) {
            Some(m) => m,
            None => 0,
        }
    }
}

/// `ls` without the empty lines it starts with.
pub open spec fn skip_empty(ls: Seq<Seq<char>>) -> Seq<Seq<char>>
    decreases ls.len(),
{
    if ls.len() > 0 && ls[0].len() == 0 {
        skip_empty(ls.drop_first())
    } else {
        ls
    }
}

/// A line with its first `ind` bytes removed, or nothing where the line is
/// shorter or the cut falls inside a character.
pub open spec fn dedent_line(l: Seq<char>, ind: nat) -> Seq<char> {
    match suffix_at_byte(l, ind) {
        Some(r) => r,
        None => Seq::empty(),
    }
}

/// The lines of `ls`, each cut by `ind` bytes.
pub open spec fn dedent_all(ls: Seq<Seq<char>>, ind: nat) -> Seq<Seq<char>> {
    ls.map_values(|l: Seq<char>| dedent_line(l, ind))
}

/// An inline snapshot literal with its common indentation, leading empty
/// lines and trailing whitespace removed, lines joined with `\n`.
pub open spec fn normalized_inline(s: Seq<char>) -> Seq<char> {
    join(dedent_all(skip_empty(lines(trim_end(s))), min_indentation_of(s)), seq!['\n'])
}

/// The marker that starts each line of the legacy inline format.
pub open spec fn legacy_marker() -> char {
    '⋮'
}

/// The rest of a legacy inline snapshot after its first line: each line
/// holds only whitespace before `ind` bytes, then the marker and the text;
/// whitespace-only lines are skipped; anything else voids the value.
pub open spec fn legacy_rest(ls: Seq<Seq<char>>, ind: nat, buf: Seq<char>) -> Option<Seq<char>>
    decreases ls.len(),
{
    if ls.len() == 0 {
        Some(buf)
    } else {
        let line = ls[0];
        let bad_prefix = match prefix_at_byte(line, ind) {
            Some(p) => trim(p).len() > 0,
            None => false,
        };
        if bad_prefix {
            None
        } else {
            match suffix_at_byte(line, ind) {
                Some(r) => if r.len() > 0 && r[0] == legacy_marker() {
                    legacy_rest(ls.drop_first(), ind, buf + r.drop_first() + seq!['\n'])
                } else if trim(r).len() == 0 {
                    legacy_rest(ls.drop_first(), ind, buf)
                } else {
                    None
                },
                None => legacy_rest(ls.drop_first(), ind, buf),
            }
        }
    }
}

/// A legacy inline snapshot: its first non-blank line fixes the
/// indentation (in bytes) and holds the marker, the others follow
/// `legacy_rest`.
pub open spec fn legacy_value(ls: Seq<Seq<char>>) -> Option<Seq<char>>
    decreases ls.len(),
{
    if ls.len() == 0 {
        Some(Seq::empty())
    } else {
        let t = trim_start(ls[0]);
        if t.len() == 0 {
            legacy_value(ls.drop_first())
        } else {
            let ind = byte_len(ls[0].take(leading_ws(ls[0]) as int));
            legacy_rest(ls.drop_first(), ind, t.drop_first() + seq!['\n'])
        }
    }
}

/// Whether a snapshot literal is in the legacy format: its first
/// non-whitespace character is the marker.
pub open spec fn is_legacy(s: Seq<char>) -> bool {
    trim_start(s).len() > 0 && trim_start(s)[0] == legacy_marker()
}

/// The value an inline snapshot literal stands for.
pub open spec fn inline_snapshot_value(s: Seq<char>) -> Seq<char> {
    if is_legacy(s) {
        match legacy_value(lines(s)) {
            Some(b) => trim_end(b),
            None => Seq::empty(),
        }
    } else {
        normalized_inline(s)
    }
}

/// Whether a snapshot needs the raw string form in source code.
pub open spec fn needs_raw(s: Seq<char>) -> bool {
    s.contains('\n') || s.contains('\\') || s.contains('"')
}

/// The block form of multi-line contents: each line on a line of its own,
/// non-empty ones indented.
pub open spec fn block_lines(ls: Seq<Seq<char>>, ind: nat) -> Seq<char>
    decreases ls.len(),
{
    if ls.len() == 0 {
        Seq::empty()
    } else {
        block_lines(ls.drop_last(), ind) + seq!['\n'] + (if ls.last().len() == 0 {
            Seq::empty()
        } else {
            spaces(ind)
        }) + ls.last()
    }
}

/// The opening quote of a snapshot literal.
pub open spec fn open_quote(raw: bool) -> Seq<char> {
    if raw {
        seq!['r', '#', '#', '#', '"']
    } else {
        seq!['"']
    }
}

/// The closing quote of a snapshot literal.
pub open spec fn close_quote(raw: bool) -> Seq<char> {
    if raw {
        seq!['"', '#', '#', '#']
    } else {
        seq!['"']
    }
}

/// What a snapshot literal for contents `s` at indentation `ind` holds:
/// the contents themselves where they are one line, else their lines as a
/// block, starting on a line of its own and ending in a line indented as
/// the assertion.
pub open spec fn inline_body(s: Seq<char>, ind: nat) -> Seq<char> {
    if s.contains('\n') {
        block_lines(lines(s), ind) + seq!['\n'] + spaces(ind)
    } else {
        s
    }
}

/// The source form of snapshot contents `s` at indentation `ind`.
pub open spec fn inline_literal(s: Seq<char>, ind: nat) -> Seq<char> {
    open_quote(needs_raw(s)) + inline_body(s, ind) + close_quote(needs_raw(s))
}

/// Counts the whitespace characters `value` starts with.
pub fn count_leading_spaces(value: &str) -> (r: usize)
    ensures
        r == leading_ws(value@),
{
    let v = chars_of(value);
    trim_start_len(&v)
}

/// One more line in the minimum of leading whitespace.
proof fn lemma_min_lead_step(ls: Seq<Seq<char>>, i: int)
    requires
        0 <= i < ls.len(),
    ensures
        min_lead(ls.take(i + 1)) == ({
            let rest = min_lead(ls.take(i));
            let l = ls[i];
            if l.len() == 0 {
                rest
            } else {
                match rest {
                    None => Some(leading_ws(l)),
                    Some(m) => Some(
                        if leading_ws(l) < m {
                            leading_ws(l)
                        } else {
                            m
                        },
                    ),
                }
            }
        }),
{
    assert(ls.take(i + 1).drop_last() =~= ls.take(i));
    assert(ls.take(i + 1).last() == ls[i]);
}

/// The indentation of `ls` by the rule of `min_indentation_of`.
fn min_lead_of(ls: &Vec<Vec<char>>) -> (r: Option<usize>)
    ensures
        match r {
            Some(m) => min_lead(deep(ls@)) == Some(m as nat),
            None => min_lead(deep(ls@)) is None,
        },
{
    let mut best: Option<usize> = None;
    let mut i: usize = 0;
    assert(deep(ls@).take(0) =~= Seq::<Seq<char>>::empty());
    while i < ls.len()
        invariant
            i <= ls@.len(),
            match best {
                Some(m) => min_lead(deep(ls@).take(i as int)) == Some(m as nat),
                None => min_lead(deep(ls@).take(i as int)) is None,
            },
        decreases ls.len() - i,
    {
        proof {
            lemma_min_lead_step(deep(ls@), i as int);
        }
        let line = &ls[i];
        if line.len() > 0 {
            let lead = trim_start_len(line);
            best = match best {
                None => Some(lead),
                Some(m) => Some(if lead < m { lead } else { m }),
            };
        }
        i += 1;
    }
    assert(deep(ls@).take(ls.len() as int) =~= deep(ls@));
    best
}

/// The indentation shared by the lines of a snapshot literal.
pub fn min_indentation(snapshot: &str) -> (r: usize)
    ensures
        r == min_indentation_of(snapshot@),
{
    let v = chars_of(snapshot);
    let n = trim_end_len(&v);
    let t = slice_copy(&v, 0, n);
    assert(t@ =~= v@.take(n as int));
    let ls = split_lines(&t);
    if ls.len() <= 1 {
        return 0;
    }
    match min_lead_of(&ls) {
        Some(m) => m,
        None => 0,
    }
}

/// Skipping one more leading empty line.
proof fn lemma_skip_empty_step(ls: Seq<Seq<char>>, i: int)
    requires
        0 <= i < ls.len(),
        ls[i].len() == 0,
    ensures
        skip_empty(ls.skip(i)) == skip_empty(ls.skip(i + 1)),
{
    assert(ls.skip(i).drop_first() =~= ls.skip(i + 1));
}

/// Removes excess indentation, leading empty lines and trailing whitespace
/// from an inline snapshot literal.
pub fn normalize_inline_snapshot(snapshot: &str) -> (r: String)
    ensures
        r@ == normalized_inline(snapshot@),
{
    let indentation = min_indentation(snapshot);
    let v = chars_of(snapshot);
    let n = trim_end_len(&v);
    let t = slice_copy(&v, 0, n);
    assert(t@ =~= v@.take(n as int));
    let ls = split_lines(&t);
    let mut start: usize = 0;
    assert(deep(ls@).skip(0) =~= deep(ls@));
    while start < ls.len() && ls[start].len() == 0
        invariant
            start <= ls@.len(),
            skip_empty(deep(ls@)) == skip_empty(deep(ls@).skip(start as int)),
        decreases ls.len() - start,
    {
        proof {
            lemma_skip_empty_step(deep(ls@), start as int);
        }
        start += 1;
    }
    let ghost rest = deep(ls@).skip(start as int);
    proof {
        if start < ls.len() {
            assert(rest[0] == ls@[start as int]@);
        }
    }
    assert(skip_empty(rest) == rest);
    let mut out_lines: Vec<Vec<char>> = Vec::new();
    let mut i = start;
    while i < ls.len()
        invariant
            start <= i <= ls@.len(),
            rest == deep(ls@).skip(start as int),
            deep(out_lines@) =~= dedent_all(rest, indentation as nat).take(i - start),
        decreases ls.len() - i,
    {
        let cut = get_suffix_at_byte(&ls[i], indentation as u128);
        let line = match cut {
            Some(l) => l,
            None => Vec::new(),
        };
        assert(line@ == dedent_line(ls@[i as int]@, indentation as nat));
        let ghost before = out_lines@;
        out_lines.push(line);
        assert(deep(out_lines@) =~= deep(before).push(line@));
        assert(dedent_all(rest, indentation as nat).take(i + 1 - start) =~= dedent_all(
            rest,
            indentation as nat,
        ).take(i - start).push(line@));
        i += 1;
    }
    assert(dedent_all(rest, indentation as nat).take(ls.len() - start) =~= dedent_all(
        rest,
        indentation as nat,
    ));
    let sep = vec!['\n'];
    assert(sep@ =~= seq!['\n']);
    assert(deep(ls@) == lines(trim_end(snapshot@)));
    assert(rest == skip_empty(lines(trim_end(snapshot@))));
    assert(deep(out_lines@) == dedent_all(rest, indentation as nat));
    let joined = join_lines(&out_lines, &sep);
    string_from(&joined)
}

} // verus!

verus! {

/// A text with a non-whitespace first character keeps it when trimmed at
/// the end.
proof fn lemma_trim_end_keeps_first(t: Seq<char>)
    requires
        t.len() > 0,
        !is_ws(t[0]),
    ensures
        trim_end(t).len() > 0,
    decreases t.len(),
{
    if t.len() > 1 && is_ws(t.last()) {
        assert(t.drop_last()[0] == t[0]);
        lemma_trim_end_keeps_first(t.drop_last());
    }
}

/// Whether `s` holds whitespace only.
pub(crate) fn is_blank(s: &[char]) -> (r: bool)
    ensures
        r == (trim(s@).len() == 0),
{
    let k = trim_start_len(s);
    proof {
        let t = trim_start(s@);
        if k < s.len() {
            assert(t[0] == s@[k as int]);
            lemma_trim_start_first(s@);
            lemma_trim_end_keeps_first(t);
        } else {
            assert(t.len() == 0);
            assert(trim_end(t) == t);
        }
    }
    k == s.len()
}

/// The first character left by trimming at the start is no whitespace.
proof fn lemma_trim_start_first(s: Seq<char>)
    requires
        trim_start(s).len() > 0,
    ensures
        !is_ws(trim_start(s)[0]),
    decreases s.len(),
{
    if s.len() > 0 && is_ws(s[0]) {
        lemma_trim_start_first(s.drop_first());
    }
}

/// Reads the legacy inline format from its lines.
fn legacy_value_of(ls: &Vec<Vec<char>>) -> (r: Option<Vec<char>>)
    ensures
        match r {
            Some(b) => legacy_value(deep(ls@)) == Some(b@),
            None => legacy_value(deep(ls@)) is None,
        },
{
    let mut i: usize = 0;
    assert(deep(ls@).skip(0) =~= deep(ls@));
    while i < ls.len() && trim_start_len(&ls[i]) == ls[i].len()
        invariant
            i <= ls@.len(),
            legacy_value(deep(ls@)) == legacy_value(deep(ls@).skip(i as int)),
        decreases ls.len() - i,
    {
        proof {
            let d = deep(ls@).skip(i as int);
            assert(d[0] == ls@[i as int]@);
            assert(d.drop_first() =~= deep(ls@).skip(i + 1));
            assert(trim_start(d[0]).len() == 0);
        }
        i += 1;
    }
    if i == ls.len() {
        assert(deep(ls@).skip(i as int).len() == 0);
        return Some(Vec::new());
    }
    let line = &ls[i];
    let k = trim_start_len(line);
    let ghost d = deep(ls@).skip(i as int);
    assert(d[0] == line@);
    let ind = byte_len_of_prefix(line, k);
    let mut buf = slice_copy(line, k + 1, line.len());
    buf.push('\n');
    assert(buf@ =~= trim_start(line@).drop_first() + seq!['\n']);
    let mut j = i + 1;
    assert(d.drop_first() =~= deep(ls@).skip(j as int));
    while j < ls.len()
        invariant
            i < j <= ls@.len(),
            legacy_value(deep(ls@)) == legacy_rest(deep(ls@).skip(j as int), ind as nat, buf@),
        decreases ls.len() - j,
    {
        let line = &ls[j];
        let ghost e = deep(ls@).skip(j as int);
        assert(e[0] == line@);
        assert(e.drop_first() =~= deep(ls@).skip(j + 1));
        match get_prefix_at_byte(line, ind) {
            Some(p) => {
                if !is_blank(&p) {
                    return None;
                }
            },
            None => {},
        }
        match get_suffix_at_byte(line, ind) {
            Some(rest) => {
                if rest.len() > 0 && rest[0] == '⋮' {
                    let tail = slice_copy(&rest, 1, rest.len());
                    assert(tail@ =~= rest@.drop_first());
                    let ghost before = buf@;
                    push_all(&mut buf, &tail);
                    buf.push('\n');
                    assert(buf@ =~= before + rest@.drop_first() + seq!['\n']);
                } else if !is_blank(&rest) {
                    return None;
                }
            },
            None => {},
        }
        j += 1;
    }
    assert(deep(ls@).skip(j as int).len() == 0);
    Some(buf)
}

/// Returns the value an inline snapshot literal stands for: the legacy
/// format where the literal starts with the marker, else the literal
/// without its common indentation and surrounding blank space.
pub fn get_inline_snapshot_value(frozen_value: &str) -> (r: String)
    ensures
        r@ == inline_snapshot_value(frozen_value@),
{
    let v = chars_of(frozen_value);
    let k = trim_start_len(&v);
    if k < v.len() && v[k] == '⋮' {
        assert(trim_start(v@)[0] == v@[k as int]);
        let ls = split_lines(&v);
        match legacy_value_of(&ls) {
            Some(b) => {
                let n = trim_end_len(&b);
                let t = slice_copy(&b, 0, n);
                assert(t@ =~= b@.take(n as int));
                string_from(&t)
            },
            None => String::new(),
        }
    } else {
        proof {
            if trim_start(v@).len() > 0 {
                assert(trim_start(v@)[0] == v@[k as int]);
            }
        }
        normalize_inline_snapshot(frozen_value)
    }
}

/// The contents of a snapshot.
#[derive(Debug)]
pub struct SnapshotContents(String);

impl View for SnapshotContents {
    type V = Seq<char>;

    closed spec fn view(&self) -> Seq<char> {
        self.0@
    }
}

impl Clone for SnapshotContents {
    fn clone(&self) -> (r: Self)
        ensures
            r@ == self@,
    {
        SnapshotContents(self.0.clone())
    }
}

impl SnapshotContents {
    /// Contents from text, with every `\r\n` turned into `\n`.
    pub fn from_text(value: &str) -> (r: SnapshotContents)
        ensures
            r@ == crlf_to_lf(value@),
    {
        let v = chars_of(value);
        let n = normalize_newlines(&v);
        SnapshotContents(string_from(&n))
    }

    /// Contents holding `value` exactly as it was stored.
    pub(crate) fn from_stored(value: String) -> (r: SnapshotContents)
        ensures
            r@ == value@,
    {
        SnapshotContents(value)
    }

    /// Contents from an inline snapshot literal.
    pub fn from_inline(value: &str) -> (r: SnapshotContents)
        ensures
            r@ == inline_snapshot_value(value@),
    {
        SnapshotContents(get_inline_snapshot_value(value))
    }

    /// The contents as text.
    pub fn as_str(&self) -> (r: &str)
        ensures
            r@ == self@,
    {
        self.0.as_str()
    }

    /// Renders the contents as a string literal for source code at the
    /// given indentation.
    pub fn to_inline(&self, indentation: usize) -> (r: String)
        ensures
            r@ == inline_literal(self@, indentation as nat),
    {
        let contents = chars_of(self.0.as_str());
        let has_nl = contents_has(&contents, '\n');
        let raw = has_nl || contents_has(&contents, '\\') || contents_has(&contents, '"');
        let mut out: Vec<char> = Vec::new();
        if raw {
            push_str(&mut out, "r###\"");
            proof { reveal_strlit("r###\""); }
        } else {
            push_str(&mut out, "\"");
            proof { reveal_strlit("\""); }
        }
        assert(out@ =~= open_quote(raw));
        if has_nl {
            let ls = split_lines(&contents);
            let mut i: usize = 0;
            assert(deep(ls@).take(0) =~= Seq::<Seq<char>>::empty());
            while i < ls.len()
                invariant
                    i <= ls@.len(),
                    out@ == open_quote(raw) + block_lines(deep(ls@).take(i as int), indentation as nat),
                decreases ls.len() - i,
            {
                let ghost before = out@;
                out.push('\n');
                if ls[i].len() > 0 {
                    push_spaces(&mut out, indentation);
                }
                push_all(&mut out, &ls[i]);
                proof {
                    let t = deep(ls@).take(i + 1);
                    assert(t.drop_last() =~= deep(ls@).take(i as int));
                    assert(t.last() == ls@[i as int]@);
                    if ls@[i as int]@.len() > 0 {
                        assert(out@ =~= before + seq!['\n'] + spaces(indentation as nat) + ls@[i as int]@);
                    } else {
                        assert(out@ =~= before + seq!['\n'] + Seq::<char>::empty() + ls@[i as int]@);
                    }
                }
                i += 1;
            }
            assert(deep(ls@).take(ls.len() as int) =~= deep(ls@));
            out.push('\n');
            push_spaces(&mut out, indentation);
        } else {
            push_all(&mut out, &contents);
        }
        let ghost body_end = out@;
        if raw {
            push_str(&mut out, "\"###");
            proof { reveal_strlit("\"###"); }
        } else {
            push_str(&mut out, "\"");
            proof { reveal_strlit("\""); }
        }
        assert(out@ =~= body_end + close_quote(raw));
        string_from(&out)
    }

    /// Whether two contents are the same but for trailing whitespace.
    pub fn matches(&self, other: &SnapshotContents) -> (r: bool)
        ensures
            r == (trim_end(self@) == trim_end(other@)),
    {
        let a = chars_of(self.0.as_str());
        let b = chars_of(other.0.as_str());
        let na = trim_end_len(&a);
        let nb = trim_end_len(&b);
        if na != nb {
            proof {
                assert(trim_end(self@).len() != trim_end(other@).len());
            }
            return false;
        }
        let mut i: usize = 0;
        while i < na
            invariant
                i <= na == nb,
                na <= a@.len(),
                nb <= b@.len(),
                a@.take(na as int) == trim_end(self@),
                b@.take(nb as int) == trim_end(other@),
                forall|j: int| 0 <= j < i ==> a@[j] == b@[j],
            decreases na - i,
        {
            if a[i] != b[i] {
                assert(trim_end(self@)[i as int] != trim_end(other@)[i as int]);
                return false;
            }
            i += 1;
        }
        assert(trim_end(self@) =~= trim_end(other@));
        true
    }

    /// Whether two contents are exactly the same.
    pub fn matches_fully(&self, other: &SnapshotContents) -> (r: bool)
        ensures
            r == (self@ == other@),
    {
        crate::env::str_eq(self.0.as_str(), other.0.as_str())
    }
}

/// Whether `s` holds `c`.
fn contents_has(s: &Vec<char>, c: char) -> (r: bool)
    ensures
        r == s@.contains(c),
{
    contains_char(s, c)
}


// ---------------------------------------------------------------------
// An inline snapshot reads back as it was written
// ---------------------------------------------------------------------
/// A line of a block: indented where it is not empty.
pub open spec fn indented(l: Seq<char>, ind: nat) -> Seq<char> {
    if l.len() == 0 {
        l
    } else {
        spaces(ind) + l
    }
}

/// The lines of a block.
pub open spec fn indent_all(ls: Seq<Seq<char>>, ind: nat) -> Seq<Seq<char>> {
    Seq::new(ls.len(), |j: int| indented(ls[j], ind))
}

/// The index of the last of the first `n` lines that is not blank, or -1.
pub open spec fn last_non_blank(ls: Seq<Seq<char>>, n: int) -> int
    decreases n,
{
    if n <= 0 || n > ls.len() {
        -1
    } else if has_non_ws(ls[n - 1]) {
        n - 1
    } else {
        last_non_blank(ls, n - 1)
    }
}

proof fn lemma_last_non_blank(ls: Seq<Seq<char>>, n: int, w: int)
    requires
        0 <= w < n <= ls.len(),
        has_non_ws(ls[w]),
    ensures
        w <= last_non_blank(ls, n) < n,
        has_non_ws(ls[last_non_blank(ls, n)]),
        forall|j: int| last_non_blank(ls, n) < j < n ==> !has_non_ws(#[trigger] ls[j]),
    decreases n,
{
    if !has_non_ws(ls[n - 1]) {
        lemma_last_non_blank(ls, n - 1, w);
    }
}

proof fn lemma_block_step(ls: Seq<Seq<char>>, ind: nat)
    requires
        ls.len() > 0,
    ensures
        block_lines(ls, ind) == block_lines(ls.drop_last(), ind) + seq!['\n'] + indented(
            ls.last(),
            ind,
        ),
{
    if ls.last().len() == 0 {
        assert(Seq::<char>::empty() + ls.last() =~= ls.last());
    }
}

proof fn lemma_indented_no_newline(l: Seq<char>, ind: nat)
    requires
        no_newline(l),
    ensures
        no_newline(indented(l, ind)),
{
    lemma_spaces_ws(ind);
    if l.len() > 0 {
        let x = spaces(ind) + l;
        assert forall|i: int| 0 <= i < x.len() implies #[trigger] x[i] != '\n' by {
            if i < ind {
                assert(x[i] == ' ');
            } else {
                assert(x[i] == l[i - ind]);
            }
        }
    }
}

/// The pieces of a block: an empty one, then its lines.
proof fn lemma_block_pieces(ls: Seq<Seq<char>>, ind: nat)
    requires
        forall|j: int| 0 <= j < ls.len() ==> no_newline(#[trigger] ls[j]),
    ensures
        pieces(block_lines(ls, ind)) == seq![Seq::<char>::empty()] + indent_all(ls, ind),
    decreases ls.len(),
{
    if ls.len() == 0 {
        assert(indent_all(ls, ind) =~= Seq::<Seq<char>>::empty());
        assert(seq![Seq::<char>::empty()] + Seq::<Seq<char>>::empty() =~= seq![Seq::<char>::empty()]);
    } else {
        let d = ls.drop_last();
        assert forall|j: int| 0 <= j < d.len() implies no_newline(#[trigger] d[j]) by {
            assert(d[j] == ls[j]);
        }
        lemma_block_pieces(d, ind);
        lemma_block_step(ls, ind);
        lemma_indented_no_newline(ls.last(), ind);
        lemma_pieces_append_line(block_lines(d, ind), indented(ls.last(), ind));
        assert((seq![Seq::<char>::empty()] + indent_all(d, ind)).push(indented(ls.last(), ind))
            =~= seq![Seq::<char>::empty()] + indent_all(ls, ind));
    }
}

/// No `\r` stands before a line break of a block whose lines, but the
/// last, do not end in one.
proof fn lemma_block_crlf(ls: Seq<Seq<char>>, ind: nat)
    requires
        forall|j: int| 0 <= j < ls.len() ==> no_newline(#[trigger] ls[j]),
        forall|j: int| 0 <= j < ls.len() - 1 ==> !ends_cr(#[trigger] ls[j]),
    ensures
        crlf_free(block_lines(ls, ind)),
        ls.len() > 0 && ls.last().len() > 0 ==> block_lines(ls, ind).len() > 0 && block_lines(
            ls,
            ind,
        ).last() == ls.last().last(),
        ls.len() > 0 && ls.last().len() == 0 ==> block_lines(ls, ind).len() > 0 && block_lines(
            ls,
            ind,
        ).last() == '\n',
        ls.len() == 0 ==> block_lines(ls, ind).len() == 0,
    decreases ls.len(),
{
    if ls.len() > 0 {
        let d = ls.drop_last();
        assert forall|j: int| 0 <= j < d.len() implies no_newline(#[trigger] d[j]) by {
            assert(d[j] == ls[j]);
        }
        assert forall|j: int| 0 <= j < d.len() - 1 implies !ends_cr(#[trigger] d[j]) by {
            assert(d[j] == ls[j]);
        }
        lemma_block_crlf(d, ind);
        lemma_block_step(ls, ind);
        lemma_indented_no_newline(ls.last(), ind);
        let x = block_lines(d, ind);
        let p = indented(ls.last(), ind);
        let t = x + seq!['\n'] + p;
        if d.len() > 0 {
            assert(d.last() == ls[ls.len() - 2]);
            assert(!ends_cr(d.last()));
        }
        assert forall|k: int| 0 < k < t.len() && #[trigger] t[k] == '\n' implies t[k - 1] != '\r' by {
            if k < x.len() {
                assert(t[k] == x[k] && t[k - 1] == x[k - 1]);
            } else if k == x.len() {
                assert(t[k - 1] == x.last());
            } else {
                assert(t[k] == p[k - x.len() - 1]);
            }
        }
        if ls.last().len() > 0 {
            assert(t.last() == p.last());
            assert(p.last() == ls.last().last());
        }
    }
}

/// A block ending in blank lines trims to the block up to its last line
/// that is not blank.
proof fn lemma_trim_block_tail(ls: Seq<Seq<char>>, ind: nat, k: int, m: int)
    requires
        0 <= k < m <= ls.len(),
        forall|j: int| k < j < ls.len() ==> !has_non_ws(#[trigger] ls[j]),
    ensures
        trim_end(block_lines(ls.take(m), ind)) == trim_end(block_lines(ls.take(k + 1), ind)),
    decreases m,
{
    if m > k + 1 {
        let t = ls.take(m);
        lemma_block_step(t, ind);
        assert(t.drop_last() =~= ls.take(m - 1));
        assert(t.last() == ls[m - 1]);
        let l = ls[m - 1];
        let w = seq!['\n'] + indented(l, ind);
        assert(all_ws(w)) by {
            lemma_spaces_ws(ind);
            assert forall|i: int| 0 <= i < w.len() implies crate::text::is_ws(#[trigger] w[i]) by {
                if i > 0 {
                    if l.len() > 0 && i - 1 < ind {
                        assert(w[i] == ' ');
                    } else if l.len() > 0 {
                        assert(w[i] == l[i - 1 - ind]);
                    } else {
                        assert(w[i] == l[i - 1]);
                    }
                }
            }
        }
        assert(block_lines(t, ind) =~= block_lines(ls.take(m - 1), ind) + w);
        lemma_trim_end_ws_suffix(block_lines(ls.take(m - 1), ind), w);
        lemma_trim_block_tail(ls, ind, k, m - 1);
    }
}

/// A text followed by blank lines trims as the text does.
proof fn lemma_trim_join_tail(ls: Seq<Seq<char>>, k: int, m: int)
    requires
        0 <= k < m <= ls.len(),
        forall|j: int| k < j < ls.len() ==> !has_non_ws(#[trigger] ls[j]),
    ensures
        trim_end(join(ls.take(m), seq!['\n'])) == trim_end(join(ls.take(k + 1), seq!['\n'])),
    decreases m,
{
    if m > k + 1 {
        let t = ls.take(m);
        assert(t.drop_last() =~= ls.take(m - 1));
        assert(t.last() == ls[m - 1]);
        let w = seq!['\n'] + ls[m - 1];
        assert(all_ws(w)) by {
            assert forall|i: int| 0 <= i < w.len() implies crate::text::is_ws(#[trigger] w[i]) by {
                if i > 0 {
                    assert(w[i] == ls[m - 1][i - 1]);
                }
            }
        }
        assert(join(t, seq!['\n']) =~= join(ls.take(m - 1), seq!['\n']) + w);
        lemma_trim_end_ws_suffix(join(ls.take(m - 1), seq!['\n']), w);
        lemma_trim_join_tail(ls, k, m - 1);
    }
}

/// The least leading whitespace of lines that all have at least `ind` of
/// it, one of them exactly `ind`.
proof fn lemma_min_lead_exact(ls: Seq<Seq<char>>, ind: nat)
    requires
        forall|j: int| 0 <= j < ls.len() && (#[trigger] ls[j]).len() > 0 ==> leading_ws(ls[j]) >= ind,
    ensures
        min_lead(ls) matches Some(m) ==> m >= ind,
        (exists|j: int| 0 <= j < ls.len() && (#[trigger] ls[j]).len() > 0 && leading_ws(ls[j]) == ind)
            ==> min_lead(ls) == Some(ind),
    decreases ls.len(),
{
    if ls.len() > 0 {
        let d = ls.drop_last();
        assert forall|j: int| 0 <= j < d.len() && (#[trigger] d[j]).len() > 0 implies leading_ws(d[j])
            >= ind by {
            assert(d[j] == ls[j]);
        }
        lemma_min_lead_exact(d, ind);
        if exists|j: int| 0 <= j < ls.len() && (#[trigger] ls[j]).len() > 0 && leading_ws(ls[j]) == ind {
            let j = choose|j: int| 0 <= j < ls.len() && (#[trigger] ls[j]).len() > 0 && leading_ws(ls[j]) == ind;
            if j < ls.len() - 1 {
                assert(d[j] == ls[j]);
            }
        }
    }
}

/// Multi-line contents written as an inline block read back as
/// themselves, trailing whitespace aside.
#[verifier::rlimit(60)]
#[verifier::spinoff_prover]
proof fn lemma_block_reads_back(c: Seq<char>, ind: nat)
    requires
        c.contains('\n'),
        crlf_free(c),
        lines(c).len() > 0,
        lines(c)[0].len() > 0,
        exists|j: int| 0 <= j < lines(c).len() && (#[trigger] lines(c)[j]).len() > 0 && !is_ws(lines(c)[j][0]),
    ensures
        normalized_inline(inline_body(c, ind)) == trim_end(c),
{
    let ls = lines(c);
    let p = pieces(c);
    // the lines of the contents
    lemma_lines_are_pieces(c, Seq::empty(), Seq::empty());
    assert(Seq::<char>::empty() + c =~= c);
    lemma_pieces_shape(c, Seq::empty(), Seq::empty());
    assert(ls == drop_final_empty(p));
    assert forall|j: int| 0 <= j < ls.len() implies no_newline(#[trigger] ls[j]) && (j < ls.len() - 1
        ==> !ends_cr(ls[j])) by {
        assert(ls[j] == p[j]);
    }
    // the last line that is not blank
    let w = choose|j: int| 0 <= j < ls.len() && (#[trigger] ls[j]).len() > 0 && !is_ws(ls[j][0]);
    assert(has_non_ws(ls[w])) by {
        assert(!is_ws(ls[w][0]));
    }
    lemma_last_non_blank(ls, ls.len() as int, w);
    let k = last_non_blank(ls, ls.len() as int);
    let tk = trim_end(ls[k]);
    lemma_trim_end_keeps(Seq::empty(), ls[k]);
    lemma_trim_end_prefix(ls[k]);
    let l2 = ls.take(k).push(tk);
    assert forall|j: int| 0 <= j < l2.len() implies no_newline(#[trigger] l2[j]) && (j < l2.len() - 1
        ==> !ends_cr(l2[j])) by {
        if j < k {
            assert(l2[j] == ls[j]);
        } else {
            assert(l2[j] == tk);
            assert forall|i: int| 0 <= i < tk.len() implies #[trigger] tk[i] != '\n' by {
                assert(tk[i] == ls[k][i]);
            }
        }
    }
    // the body, trimmed at its end
    let body = inline_body(c, ind);
    let blk = block_lines(ls, ind);
    assert(body == blk + (seq!['\n'] + spaces(ind)));
    lemma_spaces_ws(ind);
    assert(all_ws(seq!['\n'] + spaces(ind))) by {
        let w2 = seq!['\n'] + spaces(ind);
        assert forall|i: int| 0 <= i < w2.len() implies crate::text::is_ws(#[trigger] w2[i]) by {
            if i > 0 {
                assert(w2[i] == ' ');
            }
        }
    }
    lemma_trim_end_ws_suffix(blk, seq!['\n'] + spaces(ind));
    assert(ls.take(ls.len() as int) =~= ls);
    lemma_trim_block_tail(ls, ind, k, ls.len() as int);
    let front = block_lines(ls.take(k), ind);
    lemma_block_step(ls.take(k + 1), ind);
    assert(ls.take(k + 1).drop_last() =~= ls.take(k));
    assert(ls.take(k + 1).last() == ls[k]);
    let chunk = seq!['\n'] + spaces(ind) + ls[k];
    assert(block_lines(ls.take(k + 1), ind) =~= front + chunk);
    assert(has_non_ws(chunk)) by {
        let i = choose|i: int| 0 <= i < ls[k].len() && !crate::text::is_ws(#[trigger] ls[k][i]);
        assert(chunk[1 + ind + i] == ls[k][i]);
    }
    lemma_trim_end_keeps(front, chunk);
    assert(chunk =~= (seq!['\n'] + spaces(ind)) + ls[k]);
    lemma_trim_end_keeps(seq!['\n'] + spaces(ind), ls[k]);
    let trimmed = trim_end(body);
    assert(l2.drop_last() =~= ls.take(k));
    assert(l2.last() == tk);
    lemma_block_step(l2, ind);
    assert(trimmed =~= block_lines(l2, ind));
    // its lines
    lemma_block_crlf(l2, ind);
    lemma_lines_are_pieces(trimmed, Seq::empty(), Seq::empty());
    assert(Seq::<char>::empty() + trimmed =~= trimmed);
    lemma_block_pieces(l2, ind);
    let tl = seq![Seq::<char>::empty()] + indent_all(l2, ind);
    assert(tl.last() == indented(tk, ind));
    assert(lines(trimmed) == tl);
    // the indentation they share
    assert forall|j: int| 0 <= j < tl.len() && (#[trigger] tl[j]).len() > 0 implies leading_ws(tl[j])
        >= ind by {
        assert(j > 0);
        assert(tl[j] == indented(l2[j - 1], ind));
        lemma_leading_ws_spaces(ind, l2[j - 1]);
    }
    assert(tl[w + 1] == indented(l2[w], ind));
    if w < k {
        assert(l2[w] == ls[w]);
    } else {
        assert(l2[w] == tk);
        assert(tk[0] == ls[k][0]);
    }
    assert(leading_ws(l2[w]) == 0);
    lemma_leading_ws_spaces(ind, l2[w]);
    lemma_min_lead_exact(tl, ind);
    assert(min_indentation_of(body) == ind);
    // leading empty lines
    assert(l2[0].len() > 0) by {
        if k > 0 {
            assert(l2[0] == ls[0]);
        }
    }
    assert(tl.drop_first() =~= indent_all(l2, ind));
    assert(tl[0].len() == 0);
    assert(skip_empty(tl) == skip_empty(tl.drop_first()));
    assert(indent_all(l2, ind)[0] == indented(l2[0], ind));
    assert(indent_all(l2, ind)[0].len() > 0);
    assert(skip_empty(indent_all(l2, ind)) == indent_all(l2, ind));
    assert(skip_empty(tl) == indent_all(l2, ind));
    // the lines, dedented
    assert(dedent_all(indent_all(l2, ind), ind) =~= l2) by {
        assert forall|j: int| 0 <= j < l2.len() implies #[trigger] dedent_all(indent_all(l2, ind), ind)[j]
            == l2[j] by {
            if l2[j].len() > 0 {
                lemma_suffix_after_spaces(ind, l2[j]);
            }
        }
    }
    assert(normalized_inline(body) == join(l2, seq!['\n']));
    // the contents, trimmed
    lemma_join_pieces(c, Seq::empty(), Seq::empty());
    assert(join(p, seq!['\n']) == c);
    assert(trim_end(c) == trim_end(join(ls, seq!['\n']))) by {
        if p.len() > 0 && p.last().len() == 0 {
            assert(ls == p.drop_last());
            assert(ls.len() > 0);
            assert(c == join(ls, seq!['\n']) + seq!['\n'] + Seq::<char>::empty());
            assert(c =~= join(ls, seq!['\n']) + seq!['\n']);
            assert(all_ws(seq!['\n']));
            lemma_trim_end_ws_suffix(join(ls, seq!['\n']), seq!['\n']);
        }
    }
    lemma_trim_join_tail(ls, k, ls.len() as int);
    if k == 0 {
        assert(ls.take(1) =~= seq![ls[0]]);
        assert(l2 =~= seq![tk]);
    } else {
        let jt = ls.take(k + 1);
        assert(jt.drop_last() =~= ls.take(k));
        assert(jt.last() == ls[k]);
        lemma_trim_end_keeps(join(ls.take(k), seq!['\n']) + seq!['\n'], ls[k]);
        assert(join(l2, seq!['\n']) == join(ls.take(k), seq!['\n']) + seq!['\n'] + tk);
    }
}



/// A block of lines is the block of its first lines and then that of the
/// others.
proof fn lemma_block_concat(a: Seq<Seq<char>>, b: Seq<Seq<char>>, ind: nat)
    ensures
        block_lines(a + b, ind) == block_lines(a, ind) + block_lines(b, ind),
    decreases b.len(),
{
    if b.len() == 0 {
        assert(a + b =~= a);
        assert(block_lines(a, ind) + Seq::<char>::empty() =~= block_lines(a, ind));
    } else {
        lemma_block_step(a + b, ind);
        lemma_block_step(b, ind);
        assert((a + b).drop_last() =~= a + b.drop_last());
        assert((a + b).last() == b.last());
        lemma_block_concat(a, b.drop_last(), ind);
        assert(block_lines(a, ind) + block_lines(b.drop_last(), ind) + seq!['\n'] + indented(
            b.last(),
            ind,
        ) =~= block_lines(a, ind) + (block_lines(b.drop_last(), ind) + seq!['\n'] + indented(
            b.last(),
            ind,
        )));
    }
}

/// The block of blank lines is whitespace.
proof fn lemma_blank_block(a: Seq<Seq<char>>, ind: nat)
    requires
        forall|j: int| 0 <= j < a.len() ==> !has_non_ws(#[trigger] a[j]),
    ensures
        all_ws(block_lines(a, ind)),
    decreases a.len(),
{
    if a.len() > 0 {
        let d = a.drop_last();
        assert forall|j: int| 0 <= j < d.len() implies !has_non_ws(#[trigger] d[j]) by {
            assert(d[j] == a[j]);
        }
        lemma_blank_block(d, ind);
        lemma_block_step(a, ind);
        lemma_spaces_ws(ind);
        let l = a.last();
        let x = block_lines(d, ind);
        let t = x + seq!['\n'] + indented(l, ind);
        assert forall|i: int| 0 <= i < t.len() implies crate::text::is_ws(#[trigger] t[i]) by {
            if i < x.len() {
                assert(t[i] == x[i]);
            } else if i > x.len() {
                if l.len() > 0 && i - x.len() - 1 < ind {
                    assert(t[i] == ' ');
                } else if l.len() > 0 {
                    assert(t[i] == l[i - x.len() - 1 - ind]);
                } else {
                    assert(t[i] == l[i - x.len() - 1]);
                }
            }
        }
    }
}

/// Joining the first lines and the others with a line break between
/// them joins all of them.
proof fn lemma_join_concat(a: Seq<Seq<char>>, b: Seq<Seq<char>>)
    requires
        a.len() > 0,
        b.len() > 0,
    ensures
        join(a + b, seq!['\n']) == join(a, seq!['\n']) + seq!['\n'] + join(b, seq!['\n']),
    decreases b.len(),
{
    assert((a + b).drop_last() =~= a + b.drop_last());
    assert((a + b).last() == b.last());
    if b.len() == 1 {
        assert(b.drop_last() =~= Seq::<Seq<char>>::empty());
        assert(a + b.drop_last() =~= a);
    } else {
        lemma_join_concat(a, b.drop_last());
    }
}

/// Joined blank lines are whitespace.
proof fn lemma_blank_join(a: Seq<Seq<char>>)
    requires
        forall|j: int| 0 <= j < a.len() ==> !has_non_ws(#[trigger] a[j]),
    ensures
        all_ws(join(a, seq!['\n'])),
    decreases a.len(),
{
    if a.len() > 1 {
        let d = a.drop_last();
        assert forall|j: int| 0 <= j < d.len() implies !has_non_ws(#[trigger] d[j]) by {
            assert(d[j] == a[j]);
        }
        lemma_blank_join(d);
        let x = join(d, seq!['\n']);
        let l = a.last();
        let t = x + seq!['\n'] + l;
        assert forall|i: int| 0 <= i < t.len() implies crate::text::is_ws(#[trigger] t[i]) by {
            if i < x.len() {
                assert(t[i] == x[i]);
            } else if i > x.len() {
                assert(t[i] == l[i - x.len() - 1]);
            }
        }
    } else if a.len() == 1 {
        assert(!has_non_ws(a[0]));
    }
}

/// The first line that is not blank.
pub open spec fn first_non_blank(ls: Seq<Seq<char>>, i: int) -> int
    decreases ls.len() - i,
{
    if i < 0 || i >= ls.len() {
        ls.len() as int
    } else if has_non_ws(ls[i]) {
        i
    } else {
        first_non_blank(ls, i + 1)
    }
}

proof fn lemma_first_non_blank(ls: Seq<Seq<char>>, i: int, w: int)
    requires
        0 <= i <= w < ls.len(),
        has_non_ws(ls[w]),
        forall|j: int| 0 <= j < i ==> !has_non_ws(#[trigger] ls[j]),
    ensures
        i <= first_non_blank(ls, i) <= w,
        has_non_ws(ls[first_non_blank(ls, i)]),
        forall|j: int| 0 <= j < first_non_blank(ls, i) ==> !has_non_ws(#[trigger] ls[j]),
    decreases ls.len() - i,
{
    if !has_non_ws(ls[i]) {
        lemma_first_non_blank(ls, i + 1, w);
    }
}

/// The block of lines starts, whitespace aside, as its first line that
/// is not blank does.
proof fn lemma_block_start(ls: Seq<Seq<char>>, f: int, ind: nat)
    requires
        0 <= f < ls.len(),
        has_non_ws(ls[f]),
        forall|j: int| 0 <= j < f ==> !has_non_ws(#[trigger] ls[j]),
    ensures
        exists|r: Seq<char>|
            trim_start(block_lines(ls, ind) + seq!['\n'] + spaces(ind)) == trim_start(ls[f]) + r,
{
    let lf = ls[f];
    lemma_spaces_ws(ind);
    let before = ls.take(f);
    let after = ls.skip(f + 1);
    assert(ls =~= before + (seq![lf] + after));
    lemma_block_concat(before, seq![lf] + after, ind);
    lemma_block_concat(seq![lf], after, ind);
    lemma_block_step(seq![lf], ind);
    assert(seq![lf].drop_last() =~= Seq::<Seq<char>>::empty());
    assert forall|j: int| 0 <= j < before.len() implies !has_non_ws(#[trigger] before[j]) by {
        assert(before[j] == ls[j]);
    }
    lemma_blank_block(before, ind);
    let wb = block_lines(before, ind) + seq!['\n'] + spaces(ind);
    assert(all_ws(wb)) by {
        let x = block_lines(before, ind);
        assert forall|i: int| 0 <= i < wb.len() implies crate::text::is_ws(#[trigger] wb[i]) by {
            if i < x.len() {
                assert(wb[i] == x[i]);
            } else if i > x.len() {
                assert(wb[i] == ' ');
            }
        }
    }
    let rest_b = block_lines(after, ind) + seq!['\n'] + spaces(ind);
    assert(lf.len() > 0);
    assert(block_lines(ls, ind) + seq!['\n'] + spaces(ind) =~= wb + (lf + rest_b));
    lemma_trim_start_ws_prefix(wb, lf + rest_b);
    lemma_trim_start_keeps(lf, rest_b);
    assert(trim_start(block_lines(ls, ind) + seq!['\n'] + spaces(ind)) == trim_start(lf) + rest_b);
}

/// Joined lines start, whitespace aside, as their first line that is not
/// blank does.
proof fn lemma_join_start(ls: Seq<Seq<char>>, f: int, tail: Seq<char>)
    requires
        0 <= f < ls.len(),
        has_non_ws(ls[f]),
        forall|j: int| 0 <= j < f ==> !has_non_ws(#[trigger] ls[j]),
    ensures
        exists|r: Seq<char>| trim_start(join(ls, seq!['\n']) + tail) == trim_start(ls[f]) + r,
{
    let lf = ls[f];
    let before = ls.take(f);
    let after = ls.skip(f + 1);
    let from_f = seq![lf] + after;
    assert(ls =~= before + from_f);
    let jf = join(from_f, seq!['\n']);
    let r: Seq<char> = if after.len() > 0 {
        seq!['\n'] + join(after, seq!['\n'])
    } else {
        Seq::<char>::empty()
    };
    assert(jf == lf + r) by {
        if after.len() > 0 {
            lemma_join_concat(seq![lf], after);
            assert(join(seq![lf], seq!['\n']) == lf);
            assert(jf =~= lf + r);
        } else {
            assert(from_f =~= seq![lf]);
            assert(jf =~= lf + r);
        }
    }
    if f > 0 {
        assert forall|j: int| 0 <= j < before.len() implies !has_non_ws(#[trigger] before[j]) by {
            assert(before[j] == ls[j]);
        }
        lemma_join_concat(before, from_f);
        lemma_blank_join(before);
        let wc = join(before, seq!['\n']) + seq!['\n'];
        assert(all_ws(wc)) by {
            let x = join(before, seq!['\n']);
            assert forall|i: int| 0 <= i < wc.len() implies crate::text::is_ws(#[trigger] wc[i]) by {
                if i < x.len() {
                    assert(wc[i] == x[i]);
                }
            }
        }
        assert(join(ls, seq!['\n']) + tail =~= wc + (lf + (r + tail)));
        lemma_trim_start_ws_prefix(wc, lf + (r + tail));
    } else {
        assert(before =~= Seq::<Seq<char>>::empty());
        assert(ls =~= from_f);
        assert(join(ls, seq!['\n']) + tail =~= lf + (r + tail));
    }
    lemma_trim_start_keeps(lf, r + tail);
    assert(trim_start(join(ls, seq!['\n']) + tail) == trim_start(lf) + (r + tail));
}

/// A block starts, whitespace aside, as its lines do.
proof fn lemma_block_starts_as_lines(c: Seq<char>, ind: nat)
    requires
        c.contains('\n'),
        crlf_free(c),
        exists|j: int| 0 <= j < lines(c).len() && has_non_ws(#[trigger] lines(c)[j]),
    ensures
        is_legacy(inline_body(c, ind)) == is_legacy(c),
{
    let ls = lines(c);
    let p = pieces(c);
    let w = choose|j: int| 0 <= j < ls.len() && has_non_ws(#[trigger] ls[j]);
    lemma_first_non_blank(ls, 0, w);
    let f = first_non_blank(ls, 0);
    lemma_block_start(ls, f, ind);
    assert(Seq::<char>::empty() + c =~= c);
    lemma_lines_are_pieces(c, Seq::empty(), Seq::empty());
    lemma_join_pieces(c, Seq::empty(), Seq::empty());
    let tail = if p.len() > 0 && p.last().len() == 0 {
        seq!['\n']
    } else {
        Seq::<char>::empty()
    };
    assert(c == join(ls, seq!['\n']) + tail) by {
        if p.len() > 0 && p.last().len() == 0 {
            assert(ls == p.drop_last());
            assert(p =~= ls.push(p.last()));
            assert(ls.len() > 0);
            assert(join(p, seq!['\n']) == join(ls, seq!['\n']) + seq!['\n'] + p.last());
            assert(c =~= join(ls, seq!['\n']) + seq!['\n']);
        } else {
            assert(c =~= join(ls, seq!['\n']) + Seq::<char>::empty());
        }
    }
    lemma_join_start(ls, f, tail);
    lemma_trim_start_keeps(ls[f], Seq::empty());
}

/// One-line contents written inline read back as themselves, trailing
/// whitespace aside.
proof fn lemma_line_reads_back(c: Seq<char>)
    requires
        !c.contains('\n'),
    ensures
        normalized_inline(c) == trim_end(c),
{
    let t = trim_end(c);
    lemma_trim_end_prefix(c);
    assert(no_newline(t)) by {
        assert forall|i: int| 0 <= i < t.len() implies #[trigger] t[i] != '\n' by {
            assert(t[i] == c[i]);
        }
    }
    assert(crlf_free(Seq::<char>::empty() + t)) by {
        assert(Seq::<char>::empty() + t =~= t);
    }
    lemma_lines_are_pieces(t, Seq::empty(), Seq::empty());
    lemma_pieces_of_line(t, Seq::empty(), Seq::empty());
    assert(Seq::<char>::empty() + t =~= t);
    if t.len() == 0 {
        assert(lines(t) =~= Seq::<Seq<char>>::empty());
        assert(dedent_all(Seq::<Seq<char>>::empty(), 0) =~= Seq::<Seq<char>>::empty());
    } else {
        assert(lines(t) =~= seq![t]);
        assert(min_indentation_of(c) == 0);
        assert(skip_empty(seq![t]) == seq![t]);
        assert(dedent_all(seq![t], 0) =~= seq![t]);
    }
}

/// Contents written as an inline snapshot at any indentation read back as
/// themselves, trailing whitespace aside: reading the text that the
/// literal written for them holds gives the contents again.  This holds
/// where that text is not read in the legacy format and, for contents of
/// several lines, where no `\r` stands before a line break, the first
/// line is not empty and some line is not indented (the indentation that
/// all lines share is taken off when reading).
pub proof fn lemma_inline_snapshot_reads_back(c: Seq<char>, ind: nat)
    requires
        !is_legacy(c),
        c.contains('\n') ==> {
            &&& crlf_free(c)
            &&& lines(c).len() > 0
            &&& lines(c)[0].len() > 0
            &&& exists|j: int|
                0 <= j < lines(c).len() && (#[trigger] lines(c)[j]).len() > 0 && !is_ws(lines(c)[j][0])
        },
    ensures
        trim_end(inline_snapshot_value(inline_body(c, ind))) == trim_end(c),
{
    if c.contains('\n') {
        let j = choose|j: int|
            0 <= j < lines(c).len() && (#[trigger] lines(c)[j]).len() > 0 && !is_ws(lines(c)[j][0]);
        assert(has_non_ws(lines(c)[j])) by {
            assert(!is_ws(lines(c)[j][0]));
        }
        lemma_block_starts_as_lines(c, ind);
        lemma_block_reads_back(c, ind);
    } else {
        lemma_line_reads_back(c);
    }
    lemma_trim_end_idempotent(c);
}

// ---------------------------------------------------------------------
// A written literal is a Rust string literal of the snapshot
// ---------------------------------------------------------------------
/// The character that a backslash and one more character stand for in a
/// plain Rust string literal (for the escapes of one character).
pub open spec fn rust_escape(e: char) -> Option<char> {
    if e == '"' {
        Some('"')
    } else if e == '\\' {
        Some('\\')
    } else if e == '\'' {
        Some('\'')
    } else if e == 'n' {
        Some('\n')
    } else if e == 'r' {
        Some('\r')
    } else if e == 't' {
        Some('\t')
    } else if e == '0' {
        Some('\0')
    } else {
        None
    }
}

/// What the inside of a plain Rust string literal stands for: `None`
/// where it holds a quote that is not escaped or an escape this reading
/// does not know.
pub open spec fn rust_plain_value(t: Seq<char>) -> Option<Seq<char>>
    decreases t.len(),
{
    if t.len() == 0 {
        Some(seq![])
    } else if t[0] == '"' {
        None
    } else if t[0] == '\\' {
        if t.len() >= 2 && rust_escape(t[1]) is Some {
            match rust_plain_value(t.skip(2)) {
                Some(r) => Some(seq![rust_escape(t[1])->0] + r),
                None => None,
            }
        } else {
            None
        }
    } else {
        match rust_plain_value(t.skip(1)) {
            Some(r) => Some(seq![t[0]] + r),
            None => None,
        }
    }
}

/// The end of a raw literal with three hashes.
pub open spec fn raw_end() -> Seq<char> {
    seq!['"', '#', '#', '#']
}

/// Whether `p` occurs in `t`.
pub open spec fn occurs_in(t: Seq<char>, p: Seq<char>) -> bool {
    exists|i: int| 0 <= i && i + p.len() <= t.len() && #[trigger] t.subrange(i, i + p.len()) == p
}

/// What a Rust string literal of the two forms written here stands for:
/// a plain literal `"..."` read with its escapes, or a raw literal
/// `r###"..."###` read as it stands, which ends at the first `"###`.
pub open spec fn rust_literal_value(lit: Seq<char>) -> Option<Seq<char>> {
    if lit.len() >= 2 && lit[0] == '"' && lit[lit.len() - 1] == '"' {
        rust_plain_value(lit.subrange(1, lit.len() - 1))
    } else if lit.len() >= 9 && lit.take(5) == seq!['r', '#', '#', '#', '"'] && lit.skip(
        lit.len() - 4,
    ) == raw_end() {
        let body = lit.subrange(5, lit.len() - 4);
        if occurs_in(body, raw_end()) {
            None
        } else {
            Some(body)
        }
    } else {
        None
    }
}

proof fn lemma_plain_value_of_plain_text(t: Seq<char>)
    requires
        !t.contains('"'),
        !t.contains('\\'),
    ensures
        rust_plain_value(t) == Some(t),
    decreases t.len(),
{
    if t.len() > 0 {
        assert(t[0] != '"' && t[0] != '\\');
        let u = t.skip(1);
        assert forall|i: int| 0 <= i < u.len() implies u[i] != '"' && u[i] != '\\' by {
            assert(u[i] == t[i + 1]);
        }
        lemma_plain_value_of_plain_text(u);
        assert(seq![t[0]] + u =~= t);
    }
}

/// A snapshot literal written into source code is a Rust string literal
/// that stands for the literal's body (the contents, laid out as a block
/// where they have several lines): a plain literal only where the
/// contents hold no quote, backslash or line break, and a raw literal
/// otherwise.  (A body holding `"###` ends a raw literal early; such
/// contents are left out.)
pub proof fn lemma_inline_literal_is_rust_literal(s: Seq<char>, ind: nat)
    requires
        !occurs_in(inline_body(s, ind), raw_end()),
    ensures
        rust_literal_value(inline_literal(s, ind)) == Some(inline_body(s, ind)),
        inline_literal(s, ind)[0] == '"' ==> !s.contains('"') && !s.contains('\\') && !s.contains(
            '\n',
        ),
{
    let lit = inline_literal(s, ind);
    let body = inline_body(s, ind);
    if needs_raw(s) {
        assert(lit =~= seq!['r', '#', '#', '#', '"'] + body + raw_end());
        assert(lit[0] == 'r');
        assert(lit.take(5) =~= seq!['r', '#', '#', '#', '"']);
        assert(lit.skip(lit.len() - 4) =~= raw_end());
        assert(lit.subrange(5, lit.len() - 4) =~= body);
    } else {
        assert(body == s);
        assert(lit =~= seq!['"'] + s + seq!['"']);
        assert(lit.subrange(1, lit.len() - 1) =~= s);
        lemma_plain_value_of_plain_text(s);
    }
}

} // verus!
