//! The line diff of two snapshots as the printer shows it: each line that
//! stays, goes or comes with its line numbers, four lines of context round
//! each change, a gap row where unchanged lines are left out, and a single
//! row saying that the snapshots match where nothing changed.
use vstd::prelude::*;

use crate::output::{newlines_differ, newlines_matter, render_invisible, rendered};
use crate::text::chars_of;

verus! {

broadcast use vstd::std_specs::vec::group_vec_axioms;

/// Whether a line of a diff is in both texts, only the old one or only
/// the new one.
#[derive(Debug, Clone, Copy, PartialEq, Eq, Structural)]
pub enum DiffTag {
    Equal,
    Delete,
    Insert,
}

/// A line of a diff, with its line ending where it has one.
#[derive(Debug)]
pub struct DiffLine {
    pub tag: DiffTag,
    pub text: String,
}

/// Where the line that starts at `i` ends, its ending included: after a
/// `\n`, a `\r\n` or a lone `\r`, or at the end of the text.
pub open spec fn incl_line_end(s: Seq<char>, i: int) -> int
    decreases s.len() - i,
{
    if i >= s.len() {
        s.len() as int
    } else if s[i] == '\n' {
        i + 1
    } else if s[i] == '\r' {
        if i + 1 < s.len() && s[i + 1] == '\n' {
            i + 2
        } else {
            i + 1
        }
    } else {
        incl_line_end(s, i + 1)
    }
}

pub proof fn lemma_incl_line_end(s: Seq<char>, i: int)
    requires
        0 <= i < s.len(),
    ensures
        i < incl_line_end(s, i) <= s.len(),
    decreases s.len() - i,
{
    if s[i] != '\n' && s[i] != '\r' {
        if i + 1 < s.len() {
            lemma_incl_line_end(s, i + 1);
        } else {
            assert(incl_line_end(s, i + 1) == s.len());
        }
    }
}

/// The lines of a text from `i` on, each with its line ending.
pub open spec fn lines_from(s: Seq<char>, i: int) -> Seq<Seq<char>>
    decreases s.len() - i,
{
    if i < 0 || i >= s.len() {
        seq![]
    } else {
        let e = incl_line_end(s, i);
        proof {
            lemma_incl_line_end(s, i);
        }
        seq![s.subrange(i, e)] + lines_from(s, e)
    }
}

/// The lines of a text, each with its line ending.
pub open spec fn lines_inclusive(s: Seq<char>) -> Seq<Seq<char>> {
    lines_from(s, 0)
}

/// The lines of the old text in a diff: those in both texts and those
/// only in the old one, in order.
pub open spec fn old_side(ops: Seq<DiffLine>) -> Seq<Seq<char>>
    decreases ops.len(),
{
    if ops.len() == 0 {
        seq![]
    } else {
        let rest = old_side(ops.drop_last());
        if ops.last().tag == DiffTag::Insert {
            rest
        } else {
            rest.push(ops.last().text@)
        }
    }
}

/// The lines of the new text in a diff: those in both texts and those
/// only in the new one, in order.
pub open spec fn new_side(ops: Seq<DiffLine>) -> Seq<Seq<char>>
    decreases ops.len(),
{
    if ops.len() == 0 {
        seq![]
    } else {
        let rest = new_side(ops.drop_last());
        if ops.last().tag == DiffTag::Delete {
            rest
        } else {
            rest.push(ops.last().text@)
        }
    }
}

proof fn lemma_sides_len(ops: Seq<DiffLine>)
    ensures
        old_side(ops).len() <= ops.len(),
        new_side(ops).len() <= ops.len(),
    decreases ops.len(),
{
    if ops.len() > 0 {
        lemma_sides_len(ops.drop_last());
    }
}

/// The line diff of two texts, each line tagged with the side it is on
/// (`similar`'s `TextDiff` with the patience algorithm and a time limit of
/// half a second, walked with `iter_all_changes`).  Which diff comes back
/// depends on the time limit; whichever does, its lines on the old side
/// are the lines of `old` and those on the new side the lines of `new`.
#[verifier::external_body]
fn diff_lines(old: &str, new: &str) -> (ops: Vec<DiffLine>)
    ensures
        old_side(ops@) == lines_inclusive(old@),
        new_side(ops@) == lines_inclusive(new@),
{
    let diff = similar::TextDiff::configure().algorithm(similar::Algorithm::Patience).timeout(
        std::time::Duration::from_millis(500),
    ).diff_lines(old, new);
    let mut ops = Vec::new();
    for change in diff.iter_all_changes() {
        let tag = match change.tag() {
            similar::ChangeTag::Equal => DiffTag::Equal,
            similar::ChangeTag::Delete => DiffTag::Delete,
            similar::ChangeTag::Insert => DiffTag::Insert,
        };
        ops.push(DiffLine { tag, text: change.to_string_lossy().into_owned() });
    }
    ops
}

/// What a row of the printed diff is.
#[derive(Debug, Clone, Copy, PartialEq, Eq, Structural)]
pub enum RowKind {
    /// A line of both texts.
    Equal,
    /// A line of the old text only.
    Delete,
    /// A line of the new text only.
    Insert,
    /// Unchanged lines left out between two groups of changes.
    Gap,
    /// Nothing changed: the snapshots match.
    Matching,
}

/// A row of the printed diff: its kind, the line's number in the old and
/// in the new text (from 1) where it is on that side, the line as shown,
/// and whether a line break must follow it because the line has none.
#[derive(Debug)]
pub struct ChangeRow {
    pub kind: RowKind,
    pub old_line: Option<usize>,
    pub new_line: Option<usize>,
    pub text: String,
    pub line_break: bool,
}

/// The value of a row.
pub struct ChangeRowV {
    pub kind: RowKind,
    pub old_line: Option<nat>,
    pub new_line: Option<nat>,
    pub text: Seq<char>,
    pub line_break: bool,
}

pub open spec fn opt_nat(o: Option<usize>) -> Option<nat> {
    match o {
        Some(n) => Some(n as nat),
        None => None,
    }
}

impl View for ChangeRow {
    type V = ChangeRowV;

    open spec fn view(&self) -> ChangeRowV {
        ChangeRowV {
            kind: self.kind,
            old_line: opt_nat(self.old_line),
            new_line: opt_nat(self.new_line),
            text: self.text@,
            line_break: self.line_break,
        }
    }
}

/// The values of rows.
pub open spec fn rows_view(rows: Seq<ChangeRow>) -> Seq<ChangeRowV> {
    rows.map_values(|r: ChangeRow| r@)
}

/// Whether a line of a diff is a change.
pub open spec fn is_change(l: DiffLine) -> bool {
    l.tag != DiffTag::Equal
}

/// Whether the line at `i` is shown: it is within four lines of a change.
pub open spec fn shown(ops: Seq<DiffLine>, i: int) -> bool {
    exists|j: int| 0 <= j < ops.len() && i - 4 <= j <= i + 4 && #[trigger] is_change(ops[j])
}

/// Whether a line ends with a line ending.
pub open spec fn ends_line(t: Seq<char>) -> bool {
    t.len() > 0 && (t.last() == '\n' || t.last() == '\r')
}

/// The row of the line at `i`: its numbers are its positions on the sides
/// it is on.
pub open spec fn row_at(ops: Seq<DiffLine>, i: int, newlines_matter: bool) -> ChangeRowV {
    let l = ops[i];
    let old_line = Some(old_side(ops.subrange(0, i)).len() + 1);
    let new_line = Some(new_side(ops.subrange(0, i)).len() + 1);
    ChangeRowV {
        kind: match l.tag {
            DiffTag::Equal => RowKind::Equal,
            DiffTag::Delete => RowKind::Delete,
            DiffTag::Insert => RowKind::Insert,
        },
        old_line: if l.tag == DiffTag::Insert {
            None
        } else {
            old_line
        },
        new_line: if l.tag == DiffTag::Delete {
            None
        } else {
            new_line
        },
        text: rendered(l.text@, newlines_matter),
        line_break: !ends_line(l.text@),
    }
}

/// The row between two groups of changes.
pub open spec fn gap_row() -> ChangeRowV {
    ChangeRowV { kind: RowKind::Gap, old_line: None, new_line: None, text: seq![], line_break: false }
}

/// The row that says that nothing changed.
pub open spec fn matching_row() -> ChangeRowV {
    ChangeRowV {
        kind: RowKind::Matching,
        old_line: None,
        new_line: None,
        text: seq![],
        line_break: false,
    }
}

/// The rows of the first `k` lines of a diff: each shown line, with a gap
/// row before one that follows a left-out line after earlier rows.
pub open spec fn rows_upto(ops: Seq<DiffLine>, k: int, newlines_matter: bool) -> Seq<ChangeRowV>
    decreases k,
{
    if k <= 0 {
        seq![]
    } else {
        let prev = rows_upto(ops, k - 1, newlines_matter);
        let i = k - 1;
        if !shown(ops, i) {
            prev
        } else if i > 0 && !shown(ops, i - 1) && prev.len() > 0 {
            prev.push(gap_row()).push(row_at(ops, i, newlines_matter))
        } else {
            prev.push(row_at(ops, i, newlines_matter))
        }
    }
}

/// The rows of a diff: those of its lines where it has a change, else the
/// single row saying that the snapshots match.
pub open spec fn rows_of(ops: Seq<DiffLine>, newlines_matter: bool) -> Seq<ChangeRowV> {
    if exists|j: int| 0 <= j < ops.len() && #[trigger] is_change(ops[j]) {
        rows_upto(ops, ops.len() as int, newlines_matter)
    } else {
        seq![matching_row()]
    }
}

fn is_shown(ops: &Vec<DiffLine>, i: usize) -> (r: bool)
    requires
        i < ops@.len(),
    ensures
        r == shown(ops@, i as int),
{
    let lo: usize = if i >= 4 {
        i - 4
    } else {
        0
    };
    let hi: usize = if ops.len() - i > 4 {
        i + 5
    } else {
        ops.len()
    };
    let mut j = lo;
    while j < hi
        invariant
            lo <= j <= hi <= ops@.len(),
            lo == (if i >= 4 { i - 4 } else { 0 }),
            hi == (if ops@.len() - i > 4 { i + 5 } else { ops@.len() as int }),
            i < ops@.len(),
            forall|k: int| lo <= k < j ==> !is_change(#[trigger] ops@[k]),
        decreases hi - j,
    {
        if ops[j].tag != DiffTag::Equal {
            assert(is_change(ops@[j as int]));
            return true;
        }
        j = j + 1;
    }
    assert forall|k: int| 0 <= k < ops@.len() && i - 4 <= k <= i + 4 implies !is_change(
        #[trigger] ops@[k],
    ) by {
        assert(lo <= k < hi);
    }
    false
}

fn ends_with_line_ending(t: &String) -> (r: bool)
    ensures
        r == ends_line(t@),
{
    let cs = chars_of(t.as_str());
    if cs.len() == 0 {
        false
    } else {
        let c = cs[cs.len() - 1];
        c == '\n' || c == '\r'
    }
}

/// The rows in which a diff is printed, `newlines_matter` telling whether
/// line endings are shown.
pub fn changeset_rows(ops: &Vec<DiffLine>, newlines_matter: bool) -> (rows: Vec<ChangeRow>)
    ensures
        rows_view(rows@) == rows_of(ops@, newlines_matter),
{
    let n = ops.len();
    let mut rows: Vec<ChangeRow> = Vec::new();
    let mut olds: usize = 0;
    let mut news: usize = 0;
    let mut has_changes = false;
    let mut prev_shown = false;
    let mut i: usize = 0;
    while i < n
        invariant
            n == ops@.len(),
            i <= n,
            rows_view(rows@) == rows_upto(ops@, i as int, newlines_matter),
            olds == old_side(ops@.subrange(0, i as int)).len(),
            news == new_side(ops@.subrange(0, i as int)).len(),
            olds <= i,
            news <= i,
            has_changes == exists|j: int| 0 <= j < i && #[trigger] is_change(ops@[j]),
            i > 0 ==> prev_shown == shown(ops@, i - 1),
            !(exists|j: int| 0 <= j < n && #[trigger] is_change(ops@[j])) ==> rows@.len() == 0,
        decreases n - i,
    {
        let ghost before = rows_view(rows@);
        let s = is_shown(ops, i);
        let l = &ops[i];
        if s {
            if i > 0 && !prev_shown && rows.len() > 0 {
                rows.push(
                    ChangeRow {
                        kind: RowKind::Gap,
                        old_line: None,
                        new_line: None,
                        text: String::new(),
                        line_break: false,
                    },
                );
            }
            let text = render_invisible(l.text.as_str(), newlines_matter);
            let line_break = !ends_with_line_ending(&l.text);
            let row = match l.tag {
                DiffTag::Equal => ChangeRow {
                    kind: RowKind::Equal,
                    old_line: Some(olds + 1),
                    new_line: Some(news + 1),
                    text,
                    line_break,
                },
                DiffTag::Delete => ChangeRow {
                    kind: RowKind::Delete,
                    old_line: Some(olds + 1),
                    new_line: None,
                    text,
                    line_break,
                },
                DiffTag::Insert => ChangeRow {
                    kind: RowKind::Insert,
                    old_line: None,
                    new_line: Some(news + 1),
                    text,
                    line_break,
                },
            };
            rows.push(row);
        }
        proof {
            let sub = ops@.subrange(0, i + 1);
            assert(sub.drop_last() =~= ops@.subrange(0, i as int));
            assert(sub.last() == ops@[i as int]);
            lemma_sides_len(sub);
            assert(rows_view(rows@) =~= rows_upto(ops@, i + 1, newlines_matter)) by {
                if s {
                    if i > 0 && !prev_shown && before.len() > 0 {
                        assert(rows_view(rows@) =~= before.push(gap_row()).push(
                            row_at(ops@, i as int, newlines_matter),
                        ));
                    } else {
                        assert(rows_view(rows@) =~= before.push(row_at(ops@, i as int, newlines_matter)));
                    }
                }
            }
        }
        if l.tag != DiffTag::Insert {
            olds = olds + 1;
        }
        if l.tag != DiffTag::Delete {
            news = news + 1;
        }
        if l.tag != DiffTag::Equal {
            has_changes = true;
        }
        proof {
            assert(is_change(ops@[i as int]) == (l.tag != DiffTag::Equal));
            if has_changes {
                if l.tag == DiffTag::Equal {
                    let j = choose|j: int| 0 <= j < i && #[trigger] is_change(ops@[j]);
                    assert(0 <= j < i + 1 && is_change(ops@[j]));
                } else {
                    assert(0 <= i < i + 1 && is_change(ops@[i as int]));
                }
            } else {
                assert forall|j: int| 0 <= j < i + 1 implies !is_change(#[trigger] ops@[j]) by {
                    if j < i {
                        assert(!(0 <= j < i && is_change(ops@[j])));
                    }
                }
            }
        }
        prev_shown = s;
        i = i + 1;
    }
    if !has_changes {
        rows.push(
            ChangeRow {
                kind: RowKind::Matching,
                old_line: None,
                new_line: None,
                text: String::new(),
                line_break: false,
            },
        );
        proof {
            assert(rows_view(rows@) =~= seq![matching_row()]);
        }
    }
    proof {
        assert(ops@.subrange(0, n as int) =~= ops@);
    }
    rows
}

/// The rows in which the diff of two snapshots is printed: some line diff
/// of the two texts, whose sides are their lines, shown as
/// `changeset_rows` shows it, with line endings shown where they differ
/// between the texts.
pub fn changeset(old: &str, new: &str) -> (rows: Vec<ChangeRow>)
    ensures
        exists|ops: Seq<DiffLine>|
            {
                &&& old_side(ops) == lines_inclusive(old@)
                &&& new_side(ops) == lines_inclusive(new@)
                &&& rows_view(rows@) == rows_of(ops, newlines_differ(old@, new@))
            },
{
    let ops = diff_lines(old, new);
    let nm = newlines_matter(old, new);
    changeset_rows(&ops, nm)
}

} // verus!
