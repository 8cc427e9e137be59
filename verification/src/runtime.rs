//! The decisions of a snapshot assertion: how a snapshot is named and where
//! its file lies, which duplicate assertions are refused, whether the
//! assertion passes, and how a failing snapshot is updated.  The files,
//! the settings and the process-wide registries are kept by the caller,
//! which hands their contents in.
use vstd::prelude::*;

use crate::content::json::{dec_int, dec_nat, push_dec};
use crate::env::{SnapshotUpdate, SnapshotUpdateBehavior, ToolConfig, update_behavior};
use crate::paths::{comps, file_name, is_abs, join_path, parent};
use crate::snapshot::SnapshotContents;
use crate::snapfile::{Snapshot, TextSnapshotKind, persisted};
use crate::text::{chars_of, push_all, string_from, trim_end};

verus! {

broadcast use vstd::std_specs::vec::group_vec_axioms;

// ---------------------------------------------------------------------
// Snapshot values
// ---------------------------------------------------------------------
/// Special marker to use an automatic name.
#[derive(Debug)]
pub struct AutoName;

/// The reference value of an inline snapshot.
pub struct InlineValue<'a>(pub &'a str);

/// A binary snapshot, named by `name.extension`.
pub struct BinarySnapshotValue<'a> {
    pub name_and_extension: &'a str,
    pub content: Vec<u8>,
}

/// The value a snapshot assertion checks.
pub enum SnapshotValue<'a> {
    /// A text snapshot that gets stored along with the metadata in the same
    /// file.
    FileText { name: Option<String>, content: &'a str },
    /// An inline snapshot.
    InlineText { reference_content: &'a str, content: &'a str },
    /// A binary snapshot that gets stored as a separate file next to the
    /// metadata file.
    Binary { name: Option<String>, content: Vec<u8>, extension: String },
}

/// What a snapshot assertion compares against: a named snapshot file (by
/// its name, or named after the test where there is none) or an inline
/// reference value.
pub enum ReferenceValue {
    Named(Option<String>),
    Inline(String),
}

/// The first `.` of a text.
pub open spec fn first_dot(s: Seq<char>) -> Option<int> {
    if exists|i: int| 0 <= i < s.len() && #[trigger] s[i] == '.' {
        Some(choose|i: int| 0 <= i < s.len() && #[trigger] s[i] == '.' && forall|j: int| 0 <= j < i ==> s[j] != '.')
    } else {
        None
    }
}

impl<'a> SnapshotValue<'a> {
    /// A file snapshot with an automatic name.
    pub fn auto_named(content: &'a str) -> (r: SnapshotValue<'a>)
        ensures
            r matches SnapshotValue::FileText { name, content: c } && name is None && c == content,
    {
        SnapshotValue::FileText { name: None, content }
    }

    /// A file snapshot with the given name.
    pub fn named(name: &str, content: &'a str) -> (r: SnapshotValue<'a>)
        ensures
            r matches SnapshotValue::FileText { name: n, content: c } && n is Some && n.unwrap()@
                == name@ && c == content,
    {
        SnapshotValue::FileText { name: Some(string_from(chars_of(name).as_slice())), content }
    }

    /// An inline snapshot.
    pub fn inline(reference: InlineValue<'a>, content: &'a str) -> (r: SnapshotValue<'a>)
        ensures
            r matches SnapshotValue::InlineText { reference_content: rc, content: c } && rc
                == reference.0 && c == content,
    {
        SnapshotValue::InlineText { reference_content: reference.0, content }
    }

    /// A binary snapshot, split at the first `.` of its `name.extension`
    /// into its name (none where that is empty) and its extension.
    pub fn binary(value: BinarySnapshotValue<'a>) -> (r: SnapshotValue<'a>)
        requires
            first_dot(value.name_and_extension@) is Some,
        ensures
            r matches SnapshotValue::Binary { name, content, extension } && {
                let s = value.name_and_extension@;
                let d = first_dot(s).unwrap();
                &&& extension@ == s.skip(d + 1)
                &&& content@ == value.content@
                &&& (d == 0 <==> name is None)
                &&& (name is Some ==> name.unwrap()@ == s.take(d))
            },
    {
        let s = value.name_and_extension;
        let cs = chars_of(s);
        let mut d: usize = 0;
        while d < cs.len() && cs[d] != '.'
            invariant
                cs@ == s@,
                d <= cs@.len(),
                forall|j: int| 0 <= j < d ==> cs@[j] != '.',
            decreases cs.len() - d,
        {
            d += 1;
        }
        proof {
            let k = choose|i: int| 0 <= i < s@.len() && #[trigger] s@[i] == '.';
            assert(d <= k);
            assert(s@[d as int] == '.');
            let f = first_dot(s@).unwrap();
            assert(f == d) by {
                let c = choose|i: int|
                    0 <= i < s@.len() && #[trigger] s@[i] == '.' && forall|j: int| 0 <= j < i ==> s@[j] != '.';
                assert(c == f);
                if c < d {
                    assert(cs@[c] != '.');
                }
                if c > d {
                    assert(s@[d as int] != '.');
                }
            }
        }
        let extension = string_from(crate::text::slice_copy(cs.as_slice(), d + 1, cs.len()).as_slice());
        assert(extension@ =~= s@.skip(d + 1));
        let name = if d == 0 {
            None
        } else {
            let n = crate::text::slice_copy(cs.as_slice(), 0, d);
            Some(string_from(n.as_slice()))
        };
        SnapshotValue::Binary { name, content: value.content, extension }
    }
}

/// Whether a binary snapshot may use the extension: `new`, and any
/// extension that starts with `new.`, are kept for snapshots that wait for
/// review.
pub open spec fn extension_allowed(extension: Seq<char>) -> bool {
    &&& extension != seq!['n', 'e', 'w']
    &&& !(extension.len() >= 4 && extension.take(4) == seq!['n', 'e', 'w', '.'])
}

/// Whether a binary snapshot may use the extension.
pub fn binary_extension_allowed(extension: &str) -> (r: bool)
    ensures
        r == extension_allowed(extension@),
{
    let cs = chars_of(extension);
    let n = cs.len();
    if n == 3 && cs[0] == 'n' && cs[1] == 'e' && cs[2] == 'w' {
        assert(cs@ =~= seq!['n', 'e', 'w']);
        return false;
    }
    if n >= 4 && cs[0] == 'n' && cs[1] == 'e' && cs[2] == 'w' && cs[3] == '.' {
        assert(cs@.take(4) =~= seq!['n', 'e', 'w', '.']);
        return false;
    }
    proof {
        if cs@ == seq!['n', 'e', 'w'] {
            assert(cs@[0] == 'n' && cs@[1] == 'e' && cs@[2] == 'w');
        }
        if cs@.len() >= 4 && cs@.take(4) == seq!['n', 'e', 'w', '.'] {
            assert(cs@.take(4)[0] == cs@[0]);
            assert(cs@.take(4)[1] == cs@[1]);
            assert(cs@.take(4)[2] == cs@[2]);
            assert(cs@.take(4)[3] == cs@[3]);
        }
    }
    true
}

/// The name of the file a binary snapshot's contents are stored in: the
/// name of its metadata file, a `.` and the extension.
pub fn binary_file_name(metadata_file_name: &str, extension: &str) -> (r: String)
    ensures
        r@ == metadata_file_name@ + seq!['.'] + extension@,
{
    let mut out = chars_of(metadata_file_name);
    out.push('.');
    push_all(&mut out, chars_of(extension).as_slice());
    string_from(out.as_slice())
}

/// Whether a file in the directory of a snapshot is the contents of a
/// binary snapshot of it that waits for review: its name is the snapshot
/// file's name followed by `.new.`.
pub fn is_pending_binary_file(snapshot_file_name: &str, file_name: &str) -> (r: bool)
    ensures
        r == {
            let p = snapshot_file_name@ + seq!['.', 'n', 'e', 'w', '.'];
            file_name@.len() >= p.len() && file_name@.take(p.len() as int) == p
        },
{
    let mut p = chars_of(snapshot_file_name);
    let marker = ['.', 'n', 'e', 'w', '.'];
    push_all(&mut p, &marker);
    assert(marker@ =~= seq!['.', 'n', 'e', 'w', '.']);
    let ghost want = snapshot_file_name@ + seq!['.', 'n', 'e', 'w', '.'];
    assert(p@ =~= want);
    let f = chars_of(file_name);
    if f.len() < p.len() {
        return false;
    }
    let mut i: usize = 0;
    while i < p.len()
        invariant
            i <= p@.len(),
            p@.len() <= f@.len(),
            p@ == want,
            want == snapshot_file_name@ + seq!['.', 'n', 'e', 'w', '.'],
            f@ == file_name@,
            f@.take(i as int) == p@.take(i as int),
        decreases p.len() - i,
    {
        if f[i] != p[i] {
            assert(f@.take(p@.len() as int)[i as int] != want[i as int]);
            assert(f@.take(p@.len() as int) != want);
            return false;
        }
        assert(f@.take(i + 1) =~= f@.take(i as int).push(f@[i as int]));
        assert(p@.take(i + 1) =~= p@.take(i as int).push(p@[i as int]));
        i += 1;
    }
    assert(p@.take(p@.len() as int) =~= p@);
    true
}

/// Whether a binary snapshot matches the stored one: where there is one,
/// byte for byte.
pub fn binary_matches(old: Option<&[u8]>, new: &[u8]) -> (r: bool)
    ensures
        r == match old {
            Some(o) => o@ == new@,
            None => false,
        },
{
    match old {
        None => false,
        Some(o) => {
            if o.len() != new.len() {
                return false;
            }
            let mut i: usize = 0;
            while i < o.len()
                invariant
                    old == Some(o),
                    i <= o@.len(),
                    o@.len() == new@.len(),
                    forall|j: int| 0 <= j < i ==> o@[j] == new@[j],
                decreases o.len() - i,
            {
                if o[i] != new[i] {
                    assert(o@[i as int] != new@[i as int]);
                    assert(o@ != new@);
                    return false;
                }
                i += 1;
            }
            assert(o@ =~= new@);
            true
        },
    }
}

/// Whether a binary snapshot's `name.extension` has the `.` it is split at.
pub fn has_extension(name_and_extension: &str) -> (r: bool)
    ensures
        r == first_dot(name_and_extension@) is Some,
{
    let cs = chars_of(name_and_extension);
    let mut i: usize = 0;
    while i < cs.len()
        invariant
            cs@ == name_and_extension@,
            i <= cs@.len(),
            forall|j: int| 0 <= j < i ==> cs@[j] != '.',
        decreases cs.len() - i,
    {
        if cs[i] == '.' {
            assert(name_and_extension@[i as int] == '.');
            return true;
        }
        i += 1;
    }
    false
}

// ---------------------------------------------------------------------
// Names
// ---------------------------------------------------------------------
/// Whether the function is a doctest.
pub open spec fn doctest_fn(function_name: Seq<char>) -> bool {
    let p = "rust_out::main::_doctest"@;
    function_name.len() >= p.len() && function_name.take(p.len() as int) == p
}

/// Whether `s` has `p` at `i`.
pub open spec fn has_at(s: Seq<char>, i: int, p: Seq<char>) -> bool {
    0 <= i && i + p.len() <= s.len() && s.subrange(i, i + p.len()) == p
}

/// The last `::` at or before `i`.
pub open spec fn last_sep_from(s: Seq<char>, i: int) -> Option<int>
    decreases i + 1,
{
    if i < 0 {
        None
    } else if has_at(s, i, seq![':', ':']) {
        Some(i)
    } else {
        last_sep_from(s, i - 1)
    }
}

/// What follows the last `::` of a path, or the whole path.
pub open spec fn last_segment(s: Seq<char>) -> Seq<char> {
    match last_sep_from(s, s.len() - 2) {
        Some(i) => s.skip(i + 2),
        None => s,
    }
}

/// Whether a test function's name starts with `test_`.
pub open spec fn test_prefixed(name: Seq<char>) -> bool {
    has_at(name, 0, seq!['t', 'e', 's', 't', '_'])
}

/// A test function's name without its `test_` prefix.
pub open spec fn strip_test(name: Seq<char>) -> Seq<char> {
    if test_prefixed(name) {
        name.skip(5)
    } else {
        name
    }
}

/// `s` with each `::` (from the left) replaced by `__`.
pub open spec fn colons_to_underscores(s: Seq<char>) -> Seq<char>
    decreases s.len(),
{
    if s.len() == 0 {
        s
    } else if has_at(s, 0, seq![':', ':']) {
        seq!['_', '_'] + colons_to_underscores(s.skip(2))
    } else {
        seq![s[0]] + colons_to_underscores(s.skip(1))
    }
}

/// A snapshot name with the suffix of the settings appended after `@`.
pub open spec fn suffixed(name: Seq<char>, suffix: Option<Seq<char>>) -> Seq<char> {
    match suffix {
        Some(x) => name + seq!['@'] + x,
        None => name,
    }
}

/// The key under which a snapshot name is counted in its module.
pub open spec fn name_key(module: Seq<char>, name: Seq<char>) -> Seq<char> {
    colons_to_underscores(module) + seq![':', ':'] + name
}

/// The name of the `idx`-th snapshot of a test: the first has the plain
/// name, the others `-idx` appended.
pub open spec fn numbered(name: Seq<char>, idx: nat) -> Seq<char> {
    if idx == 1 {
        name
    } else {
        name + seq!['-'] + dec_nat(idx)
    }
}

/// The name of the function a snapshot macro stands in, from the type
/// name of a function declared inside it: without the trailing `::f` and
/// without the `::{{closure}}` parts of the closures it is nested in.
pub open spec fn function_name_of(full_name: Seq<char>) -> Seq<char> {
    if full_name.len() >= 3 && full_name.skip(full_name.len() - 3) == seq![':', ':', 'f'] {
        strip_closures(full_name.take(full_name.len() - 3))
    } else {
        seq![]
    }
}

/// The closure marker at the end of a function's type name.
pub open spec fn closure_marker() -> Seq<char> {
    seq![':', ':', '{', '{', 'c', 'l', 'o', 's', 'u', 'r', 'e', '}', '}']
}

/// A name without the closure markers at its end.
pub open spec fn strip_closures(name: Seq<char>) -> Seq<char>
    decreases name.len(),
{
    if name.len() >= 13 && name.skip(name.len() - 13) == closure_marker() {
        strip_closures(name.take(name.len() - 13))
    } else {
        name
    }
}

fn ends_with(s: &Vec<char>, n: usize, p: &Vec<char>) -> (r: bool)
    requires
        n <= s@.len(),
    ensures
        r == (n >= p@.len() && s@.take(n as int).skip(n - p@.len()) == p@),
{
    if n < p.len() {
        return false;
    }
    let start = n - p.len();
    let mut j: usize = 0;
    while j < p.len()
        invariant
            start + p@.len() == n,
            n <= s@.len(),
            j <= p@.len(),
            forall|k: int| 0 <= k < j ==> s@[start + k] == p@[k],
        decreases p.len() - j,
    {
        if s[start + j] != p[j] {
            assert(s@.take(n as int).skip(start as int)[j as int] != p@[j as int]);
            return false;
        }
        j += 1;
    }
    assert(s@.take(n as int).skip(start as int) =~= p@);
    true
}

/// The name of the function a snapshot macro stands in, from the type name
/// of a function `f` declared inside it.
pub fn clean_function_name(full_name: &str) -> (r: String)
    ensures
        r@ == function_name_of(full_name@),
{
    let s = chars_of(full_name);
    let mut suffix: Vec<char> = Vec::new();
    suffix.push(':');
    suffix.push(':');
    suffix.push('f');
    assert(suffix@ =~= seq![':', ':', 'f']);
    if !ends_with(&s, s.len(), &suffix) {
        assert(s@.take(s@.len() as int) =~= s@);
        return String::new();
    }
    assert(s@.take(s@.len() as int) =~= s@);
    let mut marker: Vec<char> = Vec::new();
    marker.push(':');
    marker.push(':');
    marker.push('{');
    marker.push('{');
    marker.push('c');
    marker.push('l');
    marker.push('o');
    marker.push('s');
    marker.push('u');
    marker.push('r');
    marker.push('e');
    marker.push('}');
    marker.push('}');
    assert(marker@ =~= closure_marker());
    let mut n = s.len() - 3;
    while ends_with(&s, n, &marker)
        invariant
            n <= s@.len(),
            s@ == full_name@,
            marker@ == closure_marker(),
            s@.len() >= 3,
            strip_closures(s@.take(s@.len() - 3)) == strip_closures(s@.take(n as int)),
        decreases n,
    {
        assert(s@.take(n as int).take(n - 13) =~= s@.take(n - 13));
        n = n - 13;
    }
    let out = crate::text::slice_copy(s.as_slice(), 0, n);
    assert(out@ =~= s@.take(n as int));
    string_from(out.as_slice())
}

/// Whether the function is a doctest.
pub fn is_doctest(function_name: &str) -> (r: bool)
    ensures
        r == doctest_fn(function_name@),
{
    let f = chars_of(function_name);
    let p = chars_of("rust_out::main::_doctest");
    if f.len() < p.len() {
        return false;
    }
    let mut i: usize = 0;
    while i < p.len()
        invariant
            f@ == function_name@,
            p@ == "rust_out::main::_doctest"@,
            p@.len() <= f@.len(),
            i <= p@.len(),
            forall|j: int| 0 <= j < i ==> f@[j] == p@[j],
        decreases p.len() - i,
    {
        if f[i] != p[i] {
            return false;
        }
        i += 1;
    }
    assert(f@.take(p@.len() as int) =~= p@);
    true
}

fn has_at_exec(s: &Vec<char>, i: usize, p: &Vec<char>) -> (r: bool)
    ensures
        r == has_at(s@, i as int, p@),
{
    if i > s.len() || p.len() > s.len() - i {
        return false;
    }
    let mut j: usize = 0;
    while j < p.len()
        invariant
            i + p@.len() <= s@.len(),
            i + p@.len() <= s.len(),
            j <= p@.len(),
            forall|k: int| 0 <= k < j ==> s@[i + k] == p@[k],
        decreases p.len() - j,
    {
        if s[i + j] != p[j] {
            assert(s@.subrange(i as int, i + p@.len())[j as int] != p@[j as int]);
            return false;
        }
        j += 1;
    }
    assert(s@.subrange(i as int, i + p@.len()) =~= p@);
    true
}

fn test_prefix() -> (r: Vec<char>)
    ensures
        r@ == seq!['t', 'e', 's', 't', '_'],
{
    let mut v: Vec<char> = Vec::new();
    v.push('t');
    v.push('e');
    v.push('s');
    v.push('t');
    v.push('_');
    assert(v@ =~= seq!['t', 'e', 's', 't', '_']);
    v
}

fn colons() -> (r: Vec<char>)
    ensures
        r@ == seq![':', ':'],
{
    let mut v: Vec<char> = Vec::new();
    v.push(':');
    v.push(':');
    assert(v@ =~= seq![':', ':']);
    v
}

/// What follows the last `::` of a path, or the whole path.
pub fn last_path_segment(s: &str) -> (r: Vec<char>)
    ensures
        r@ == last_segment(s@),
{
    let cs = chars_of(s);
    let sep = colons();
    if cs.len() < 2 {
        assert(last_sep_from(cs@, cs@.len() - 2) is None);
        return cs;
    }
    let mut i: usize = cs.len() - 2;
    loop
        invariant
            cs@ == s@,
            sep@ == seq![':', ':'],
            i + 2 <= cs@.len(),
            i + 2 <= cs.len(),
            last_sep_from(cs@, cs@.len() - 2) == last_sep_from(cs@, i as int),
        decreases i,
    {
        if has_at_exec(&cs, i, &sep) {
            assert(last_sep_from(cs@, i as int) == Some(i as int));
            let mut out: Vec<char> = Vec::new();
            crate::text::push_all(&mut out, crate::text::slice_copy(cs.as_slice(), i + 2, cs.len()).as_slice());
            assert(out@ =~= cs@.skip(i + 2));
            return out;
        }
        if i == 0 {
            assert(last_sep_from(cs@, -1) is None);
            return cs;
        }
        i -= 1;
    }
}

/// `s` with each `::` replaced by `__`.
pub fn replace_colons(s: &str) -> (r: Vec<char>)
    ensures
        r@ == colons_to_underscores(s@),
{
    let cs = chars_of(s);
    let sep = colons();
    let mut out: Vec<char> = Vec::new();
    let mut i: usize = 0;
    assert(cs@.skip(0) =~= cs@);
    while i < cs.len()
        invariant
            cs@ == s@,
            sep@ == seq![':', ':'],
            i <= cs@.len(),
            out@ + colons_to_underscores(cs@.skip(i as int)) == colons_to_underscores(cs@),
        decreases cs.len() - i,
    {
        let ghost rest = cs@.skip(i as int);
        if has_at_exec(&cs, i, &sep) {
            assert(rest.subrange(0, 2) =~= cs@.subrange(i as int, i + 2));
            assert(rest.skip(2) =~= cs@.skip(i + 2));
            assert(out@.push('_').push('_') + colons_to_underscores(cs@.skip(i + 2)) =~= out@
                + colons_to_underscores(rest));
            out.push('_');
            out.push('_');
            i += 2;
        } else {
            assert(!has_at(rest, 0, seq![':', ':'])) by {
                if rest.len() >= 2 {
                    assert(rest.subrange(0, 2) =~= cs@.subrange(i as int, i + 2));
                }
            }
            assert(rest.skip(1) =~= cs@.skip(i + 1));
            assert(out@.push(cs@[i as int]) + colons_to_underscores(cs@.skip(i + 1)) =~= out@
                + colons_to_underscores(rest));
            out.push(cs[i]);
            i += 1;
        }
    }
    assert(cs@.skip(i as int) =~= Seq::<char>::empty());
    assert(out@ + Seq::<char>::empty() =~= out@);
    out
}

/// If there is a suffix on the settings, appends it to the snapshot name.
pub fn add_suffix_to_snapshot_name(name: &str, suffix: Option<&str>) -> (r: String)
    ensures
        r@ == suffixed(name@, match suffix {
            Some(x) => Some(x@),
            None => None,
        }),
{
    let mut out = chars_of(name);
    match suffix {
        Some(x) => {
            out.push('@');
            crate::text::push_str(&mut out, x);
        },
        None => {},
    }
    string_from(out.as_slice())
}

/// The decimal digits of a count.
fn decimal(n: usize) -> (r: Vec<char>)
    ensures
        r@ == dec_nat(n as nat),
{
    let mut out: Vec<char> = Vec::new();
    push_dec(&mut out, n as u128);
    out
}

/// What the snapshot names of a process remember per test: whether the
/// test function that first used the name had the `test_` prefix, and how
/// many snapshots were named after it.
pub open spec fn entry_of(entries: Seq<(Seq<char>, bool, usize)>, key: Seq<char>) -> Option<(bool, usize)>
    decreases entries.len(),
{
    if entries.len() == 0 {
        None
    } else if entries[0].0 == key {
        Some((entries[0].1, entries[0].2))
    } else {
        entry_of(entries.drop_first(), key)
    }
}

/// The snapshot names handed out in this process, per module and name.
pub struct NameRegistry {
    entries: Vec<(String, bool, usize)>,
}

impl View for NameRegistry {
    type V = Seq<(Seq<char>, bool, usize)>;

    closed spec fn view(&self) -> Seq<(Seq<char>, bool, usize)> {
        self.entries@.map_values(|e: (String, bool, usize)| (e.0@, e.1, e.2))
    }
}

/// The automatic name of the snapshot of a test function, before any
/// counting: the function's name without its path and `test_` prefix, with
/// the suffix.
pub open spec fn auto_name(function_name: Seq<char>, suffix: Option<Seq<char>>) -> Seq<char> {
    suffixed(strip_test(last_segment(function_name)), suffix)
}

/// Whether naming a snapshot of this function would clash with an earlier
/// test of the same module whose name differs only in the `test_` prefix.
pub open spec fn name_clash(
    reg: Seq<(Seq<char>, bool, usize)>,
    function_name: Seq<char>,
    module: Seq<char>,
    suffix: Option<Seq<char>>,
) -> bool {
    match entry_of(reg, name_key(module, auto_name(function_name, suffix))) {
        Some((prefixed, _)) => prefixed != test_prefixed(last_segment(function_name)),
        None => false,
    }
}

/// The name given: the automatic name, numbered after the snapshots
/// already named after it unless duplicates are allowed.
pub open spec fn detected_name(
    reg: Seq<(Seq<char>, bool, usize)>,
    function_name: Seq<char>,
    module: Seq<char>,
    suffix: Option<Seq<char>>,
    allow_duplicates: bool,
) -> Seq<char> {
    let name = auto_name(function_name, suffix);
    let count = match entry_of(reg, name_key(module, name)) {
        Some((_, c)) => c as nat,
        None => 0,
    };
    if allow_duplicates {
        name
    } else {
        numbered(name, count + 1)
    }
}

/// One automatic naming: `name` is the name given from the registry
/// `before`, and `after` counts one more snapshot under the automatic name
/// (unless duplicates are allowed), remembering whether the first test
/// named so had the `test_` prefix; all other names keep their counts.
pub open spec fn name_step(
    before: Seq<(Seq<char>, bool, usize)>,
    after: Seq<(Seq<char>, bool, usize)>,
    function_name: Seq<char>,
    module: Seq<char>,
    suffix: Option<Seq<char>>,
    allow_duplicates: bool,
    name: Seq<char>,
) -> bool {
    let key = name_key(module, auto_name(function_name, suffix));
    let old_entry = entry_of(before, key);
    let prefixed = match old_entry {
        Some((p, _)) => p,
        None => test_prefixed(last_segment(function_name)),
    };
    let count = match old_entry {
        Some((_, c)) => c as nat,
        None => 0,
    };
    &&& name == detected_name(before, function_name, module, suffix, allow_duplicates)
    &&& entry_of(after, key) == Some(
        (prefixed, (if allow_duplicates { count } else { count + 1 }) as usize),
    )
    &&& forall|d: Seq<char>| d != key ==> entry_of(after, d) == entry_of(before, d)
}

/// Successive snapshots of one test, named automatically in a module
/// where none was named after it yet, are numbered: the first gets the
/// plain name, the second `-2` and the third `-3` appended.  After the
/// first, a test whose name differs from it only in the `test_` prefix
/// clashes with it.
pub proof fn lemma_names_count_up(
    r0: Seq<(Seq<char>, bool, usize)>,
    r1: Seq<(Seq<char>, bool, usize)>,
    r2: Seq<(Seq<char>, bool, usize)>,
    r3: Seq<(Seq<char>, bool, usize)>,
    function_name: Seq<char>,
    module: Seq<char>,
    suffix: Option<Seq<char>>,
    n1: Seq<char>,
    n2: Seq<char>,
    n3: Seq<char>,
    other: Seq<char>,
)
    requires
        entry_of(r0, name_key(module, auto_name(function_name, suffix))) is None,
        name_step(r0, r1, function_name, module, suffix, false, n1),
        name_step(r1, r2, function_name, module, suffix, false, n2),
        name_step(r2, r3, function_name, module, suffix, false, n3),
    ensures
        n1 == auto_name(function_name, suffix),
        n2 == numbered(auto_name(function_name, suffix), 2),
        n3 == numbered(auto_name(function_name, suffix), 3),
        auto_name(other, suffix) == auto_name(function_name, suffix) && test_prefixed(
            last_segment(other),
        ) != test_prefixed(last_segment(function_name)) ==> name_clash(r1, other, module, suffix)
            && name_clash(r3, other, module, suffix),
{
}

proof fn lemma_entry_of_update(
    entries: Seq<(Seq<char>, bool, usize)>,
    i: int,
    e: (Seq<char>, bool, usize),
    d: Seq<char>,
)
    requires
        0 <= i < entries.len(),
        entries[i].0 == e.0,
        forall|j: int| 0 <= j < i ==> entries[j].0 != e.0,
    ensures
        entry_of(entries.update(i, e), d) == if d == e.0 {
            Some((e.1, e.2))
        } else {
            entry_of(entries, d)
        },
    decreases i,
{
    let u = entries.update(i, e);
    if i > 0 {
        assert(u[0] == entries[0]);
        assert(u.drop_first() =~= entries.drop_first().update(i - 1, e));
        lemma_entry_of_update(entries.drop_first(), i - 1, e, d);
        if entries[0].0 == d {
            assert(entry_of(u, d) == Some((entries[0].1, entries[0].2)));
        } else {
            assert(entry_of(u, d) == entry_of(u.drop_first(), d));
            assert(entry_of(entries, d) == entry_of(entries.drop_first(), d));
        }
    } else {
        assert(u[0] == e);
        if d != e.0 {
            assert(entry_of(u, d) == entry_of(u.drop_first(), d));
            assert(u.drop_first() =~= entries.drop_first());
            assert(entry_of(entries, d) == entry_of(entries.drop_first(), d));
        }
    }
}

proof fn lemma_entry_of_push(entries: Seq<(Seq<char>, bool, usize)>, e: (Seq<char>, bool, usize), d: Seq<char>)
    requires
        entry_of(entries, e.0) is None,
    ensures
        entry_of(entries.push(e), d) == if d == e.0 {
            Some((e.1, e.2))
        } else {
            entry_of(entries, d)
        },
    decreases entries.len(),
{
    let p = entries.push(e);
    if entries.len() > 0 {
        assert(p[0] == entries[0]);
        assert(p.drop_first() =~= entries.drop_first().push(e));
        lemma_entry_of_push(entries.drop_first(), e, d);
        if entries[0].0 == d {
            assert(entry_of(p, d) == Some((entries[0].1, entries[0].2)));
        } else {
            assert(entry_of(p, d) == entry_of(p.drop_first(), d));
            assert(entry_of(entries, d) == entry_of(entries.drop_first(), d));
        }
    } else {
        assert(p[0] == e);
        assert(p.drop_first() =~= Seq::<(Seq<char>, bool, usize)>::empty());
    }
}

impl NameRegistry {
    /// No names handed out yet.
    pub fn new() -> (r: NameRegistry)
        ensures
            r@ == Seq::<(Seq<char>, bool, usize)>::empty(),
    {
        let r = NameRegistry { entries: Vec::new() };
        assert(r@ =~= Seq::<(Seq<char>, bool, usize)>::empty());
        r
    }

    /// Where the entry for a key is, and what it holds.
    fn find(&self, key: &Vec<char>) -> (r: Option<usize>)
        ensures
            match r {
                Some(i) => i < self@.len() && self@[i as int].0 == key@ && entry_of(self@, key@)
                    == Some((self@[i as int].1, self@[i as int].2)) && forall|j: int|
                    0 <= j < i ==> self@[j].0 != key@,
                None => entry_of(self@, key@) is None,
            },
    {
        let ghost all = self@;
        let mut i: usize = 0;
        assert(all.skip(0) =~= all);
        while i < self.entries.len()
            invariant
                i <= self.entries@.len(),
                all == self@,
                all.len() == self.entries@.len(),
                entry_of(all, key@) == entry_of(all.skip(i as int), key@),
                forall|j: int| 0 <= j < i ==> all[j].0 != key@,
            decreases self.entries.len() - i,
        {
            let e = &self.entries[i];
            assert(all[i as int] == (e.0@, e.1, e.2));
            assert(all.skip(i as int)[0] == all[i as int]);
            assert(all.skip(i as int).drop_first() =~= all.skip(i + 1));
            if crate::env::str_eq(e.0.as_str(), string_from(key.as_slice()).as_str()) {
                return Some(i);
            }
            i += 1;
        }
        assert(all.skip(i as int) =~= Seq::<(Seq<char>, bool, usize)>::empty());
        None
    }

    /// Whether naming a snapshot of this function would clash with a test
    /// whose name differs only in the `test_` prefix.
    pub fn clashes(&self, function_name: &str, module: &str, suffix: Option<&str>) -> (r: bool)
        ensures
            r == name_clash(self@, function_name@, module@, match suffix {
                Some(x) => Some(x@),
                None => None,
            }),
    {
        let seg = last_path_segment(function_name);
        let prefixed = has_at_exec(&seg, 0, &test_prefix());
        let key = self.key_for(function_name, module, suffix);
        match self.find(&key) {
            Some(i) => self.entries[i].1 != prefixed,
            None => false,
        }
    }

    fn key_for(&self, function_name: &str, module: &str, suffix: Option<&str>) -> (r: Vec<char>)
        ensures
            r@ == name_key(module@, auto_name(function_name@, match suffix {
                Some(x) => Some(x@),
                None => None,
            })),
    {
        let name = base_name(function_name);
        let named = add_suffix_to_snapshot_name(string_from(name.as_slice()).as_str(), suffix);
        let mut key = replace_colons(module);
        key.push(':');
        key.push(':');
        crate::text::push_str(&mut key, named.as_str());
        key
    }

    /// Names a snapshot of a test function automatically: the function's
    /// name without its path and `test_` prefix, with the suffix, and
    /// numbered after the snapshots already named after it unless
    /// duplicates are allowed.
    pub fn detect_snapshot_name(
        &mut self,
        function_name: &str,
        module: &str,
        suffix: Option<&str>,
        allow_duplicates: bool,
    ) -> (r: String)
        requires
            !name_clash(old(self)@, function_name@, module@, match suffix {
                Some(x) => Some(x@),
                None => None,
            }),
            forall|i: int| 0 <= i < old(self)@.len() ==> #[trigger] old(self)@[i].2 < usize::MAX,
        ensures
            name_step(old(self)@, final(self)@, function_name@, module@, match suffix {
                Some(x) => Some(x@),
                None => None,
            }, allow_duplicates, r@),
    {
        let r = self.next_name(function_name, module, suffix, allow_duplicates);
        r
    }

    fn next_name(
        &mut self,
        function_name: &str,
        module: &str,
        suffix: Option<&str>,
        allow_duplicates: bool,
    ) -> (r: String)
        requires
            !name_clash(old(self)@, function_name@, module@, match suffix {
                Some(x) => Some(x@),
                None => None,
            }),
            forall|i: int| 0 <= i < old(self)@.len() ==> #[trigger] old(self)@[i].2 < usize::MAX,
        ensures
            r@ == detected_name(old(self)@, function_name@, module@, match suffix {
                Some(x) => Some(x@),
                None => None,
            }, allow_duplicates),
            ({
                let key = name_key(module@, auto_name(function_name@, match suffix {
                    Some(x) => Some(x@),
                    None => None,
                }));
                let old_entry = entry_of(old(self)@, key);
                let prefixed = match old_entry {
                    Some((p, _)) => p,
                    None => test_prefixed(last_segment(function_name@)),
                };
                let count = match old_entry {
                    Some((_, c)) => c as nat,
                    None => 0,
                };
                &&& entry_of(final(self)@, key) == Some(
                    (prefixed, (if allow_duplicates { count } else { count + 1 }) as usize),
                )
                &&& forall|d: Seq<char>| d != key ==> entry_of(final(self)@, d) == entry_of(old(self)@, d)
            }),
    {
        let seg = last_path_segment(function_name);
        let prefixed = has_at_exec(&seg, 0, &test_prefix());
        let name = base_name(function_name);
        let named = add_suffix_to_snapshot_name(string_from(name.as_slice()).as_str(), suffix);
        let key = self.key_for(function_name, module, suffix);
        let found = self.find(&key);
        let count: usize = match found {
            Some(i) => self.entries[i].2,
            None => 0,
        };
        if allow_duplicates {
            if found.is_none() {
                let ghost before = self@;
                let k = string_from(key.as_slice());
                self.entries.push((k, prefixed, 0));
                proof {
                    assert(self@ =~= before.push((key@, prefixed, 0usize)));
                    lemma_entry_of_push(before, (key@, prefixed, 0usize), key@);
                    assert forall|d: Seq<char>| d != key@ implies entry_of(self@, d) == entry_of(before, d) by {
                        lemma_entry_of_push(before, (key@, prefixed, 0usize), d);
                    }
                }
            }
            return named;
        }
        proof {
            match found {
                Some(i) => assert(self@[i as int].2 < usize::MAX),
                None => {},
            }
        }
        let idx = count + 1;
        let ghost before = self@;
        match found {
            Some(i) => {
                let k = string_from(key.as_slice());
                let p = self.entries[i].1;
                self.entries.set(i, (k, p, idx));
                proof {
                    assert(self@ =~= before.update(i as int, (key@, p, idx)));
                    lemma_entry_of_update(before, i as int, (key@, p, idx), key@);
                    assert forall|d: Seq<char>| d != key@ implies entry_of(self@, d) == entry_of(before, d) by {
                        lemma_entry_of_update(before, i as int, (key@, p, idx), d);
                    }
                }
            },
            None => {
                let k = string_from(key.as_slice());
                self.entries.push((k, prefixed, idx));
                proof {
                    assert(self@ =~= before.push((key@, prefixed, idx)));
                    lemma_entry_of_push(before, (key@, prefixed, idx), key@);
                    assert forall|d: Seq<char>| d != key@ implies entry_of(self@, d) == entry_of(before, d) by {
                        lemma_entry_of_push(before, (key@, prefixed, idx), d);
                    }
                }
            },
        }
        if idx == 1 {
            named
        } else {
            let mut out = chars_of(named.as_str());
            out.push('-');
            push_all(&mut out, decimal(idx).as_slice());
            string_from(out.as_slice())
        }
    }
}

/// A test function's name without its path and `test_` prefix.
fn base_name(function_name: &str) -> (r: Vec<char>)
    ensures
        r@ == strip_test(last_segment(function_name@)),
{
    let seg = last_path_segment(function_name);
    if has_at_exec(&seg, 0, &test_prefix()) {
        let out = crate::text::slice_copy(seg.as_slice(), 5, seg.len());
        assert(out@ =~= seg@.skip(5));
        out
    } else {
        seg
    }
}

// ---------------------------------------------------------------------
// Snapshot files
// ---------------------------------------------------------------------
/// `s` with every `.` replaced by `_`.
pub open spec fn dots_to_underscores(s: Seq<char>) -> Seq<char> {
    s.map_values(|c: char| if c == '.' { '_' } else { c })
}

/// `s` with every `/` and `\` replaced by `__`.
pub open spec fn slashes_to_underscores(s: Seq<char>) -> Seq<char>
    decreases s.len(),
{
    if s.len() == 0 {
        s
    } else {
        slashes_to_underscores(s.drop_last()) + if s.last() == '/' || s.last() == '\\' {
            seq!['_', '_']
        } else {
            seq![s.last()]
        }
    }
}

/// The file name of a snapshot: the module (or, for a doctest, the source
/// file) when the settings prepend it, then the name, then `.snap`.
pub open spec fn snapshot_file_part(
    module: Seq<char>,
    assertion_file: Seq<Seq<char>>,
    snapshot_name: Seq<char>,
    is_doctest: bool,
    prepend_module: bool,
) -> Seq<char> {
    (if prepend_module {
        if is_doctest {
            "doctest_"@ + dots_to_underscores(file_name(assertion_file).unwrap()) + seq!['_', '_']
        } else {
            colons_to_underscores(module) + seq!['_', '_']
        }
    } else {
        seq![]
    }) + slashes_to_underscores(snapshot_name) + seq!['.', 's', 'n', 'a', 'p']
}

/// The path of a snapshot file: the directory of the source file within
/// the workspace, then the snapshot path of the settings, then the file
/// name.
pub open spec fn snapshot_file_path(
    module: Seq<char>,
    assertion_file: Seq<Seq<char>>,
    snapshot_name: Seq<char>,
    workspace: Seq<Seq<char>>,
    is_doctest: bool,
    snapshot_path: Seq<Seq<char>>,
    prepend_module: bool,
) -> Seq<Seq<char>> {
    join_path(
        join_path(join_path(workspace, parent(assertion_file).unwrap()), snapshot_path),
        seq![snapshot_file_part(module, assertion_file, snapshot_name, is_doctest, prepend_module)],
    )
}

fn join_comps(a: Vec<String>, b: &Vec<String>) -> (r: Vec<String>)
    ensures
        comps(r@) == join_path(comps(a@), comps(b@)),
{
    let mut out: Vec<String> = Vec::new();
    let b_abs = b.len() > 0 && {
        let cs = chars_of(b[0].as_str());
        let r = cs.len() == 1 && cs[0] == '/';
        assert(r ==> cs@ =~= seq!['/']);
        assert(cs@ == seq!['/'] ==> r);
        r
    };
    if !b_abs {
        let mut i: usize = 0;
        while i < a.len()
            invariant
                i <= a@.len(),
                comps(out@) == comps(a@).take(i as int),
            decreases a.len() - i,
        {
            let ghost before = out@;
            out.push(a[i].clone());
            assert(comps(out@) =~= comps(before).push(a@[i as int]@));
            assert(comps(a@).take(i + 1) =~= comps(a@).take(i as int).push(a@[i as int]@));
            i += 1;
        }
        assert(comps(a@).take(a@.len() as int) =~= comps(a@));
    }
    let ghost mid = out@;
    let mut j: usize = 0;
    while j < b.len()
        invariant
            j <= b@.len(),
            comps(out@) == comps(mid) + comps(b@).take(j as int),
        decreases b.len() - j,
    {
        let ghost before = out@;
        out.push(b[j].clone());
        assert(comps(out@) =~= comps(before).push(b@[j as int]@));
        assert(comps(b@).take(j + 1) =~= comps(b@).take(j as int).push(b@[j as int]@));
        j += 1;
    }
    assert(comps(b@).take(b@.len() as int) =~= comps(b@));
    if b_abs {
        assert(comps(mid) =~= Seq::<Seq<char>>::empty());
    }
    assert(comps(out@) =~= join_path(comps(a@), comps(b@)));
    out
}

/// The file name of a snapshot.
fn snapshot_file_name(
    module: &str,
    assertion_file: &Vec<String>,
    snapshot_name: &str,
    is_doctest: bool,
    prepend_module: bool,
) -> (r: String)
    requires
        prepend_module && is_doctest ==> file_name(comps(assertion_file@)) is Some,
    ensures
        r@ == snapshot_file_part(module@, comps(assertion_file@), snapshot_name@, is_doctest, prepend_module),
{
    let mut f: Vec<char> = Vec::new();
    if prepend_module {
        if is_doctest {
            crate::text::push_str(&mut f, "doctest_");
            let last = chars_of(assertion_file[assertion_file.len() - 1].as_str());
            let ghost before = f@;
            let mut i: usize = 0;
            while i < last.len()
                invariant
                    i <= last@.len(),
                    f@ == before + dots_to_underscores(last@.take(i as int)),
                decreases last.len() - i,
            {
                let c = last[i];
                f.push(if c == '.' { '_' } else { c });
                assert(dots_to_underscores(last@.take(i + 1)) =~= dots_to_underscores(last@.take(i as int)).push(if c == '.' { '_' } else { c }));
                i += 1;
            }
            assert(last@.take(last@.len() as int) =~= last@);
            f.push('_');
            f.push('_');
        } else {
            let m = replace_colons(module);
            push_all(&mut f, m.as_slice());
            f.push('_');
            f.push('_');
        }
    }
    let ghost head = f@;
    let name = chars_of(snapshot_name);
    let mut i: usize = 0;
    while i < name.len()
        invariant
            name@ == snapshot_name@,
            i <= name@.len(),
            f@ == head + slashes_to_underscores(name@.take(i as int)),
        decreases name.len() - i,
    {
        let c = name[i];
        if c == '/' || c == '\\' {
            f.push('_');
            f.push('_');
        } else {
            f.push(c);
        }
        assert(name@.take(i + 1).drop_last() =~= name@.take(i as int));
        i += 1;
    }
    assert(name@.take(name@.len() as int) =~= name@);
    f.push('.');
    f.push('s');
    f.push('n');
    f.push('a');
    f.push('p');
    assert(f@ =~= snapshot_file_part(module@, comps(assertion_file@), snapshot_name@, is_doctest, prepend_module));
    string_from(f.as_slice())
}

/// The path of the file of a named snapshot.
pub fn get_snapshot_filename(
    module: &str,
    assertion_file: &Vec<String>,
    snapshot_name: &str,
    cargo_workspace: &Vec<String>,
    is_doctest: bool,
    snapshot_path: &Vec<String>,
    prepend_module: bool,
) -> (r: Vec<String>)
    requires
        parent(comps(assertion_file@)) is Some,
        prepend_module && is_doctest ==> file_name(comps(assertion_file@)) is Some,
    ensures
        comps(r@) == snapshot_file_path(
            module@,
            comps(assertion_file@),
            snapshot_name@,
            comps(cargo_workspace@),
            is_doctest,
            snapshot_path@.map_values(|c: String| c@),
            prepend_module,
        ),
{
    let mut dir: Vec<String> = Vec::new();
    let mut i: usize = 0;
    while i < assertion_file.len() - 1
        invariant
            i + 1 <= assertion_file@.len(),
            assertion_file@.len() >= 1,
            comps(dir@) == comps(assertion_file@).take(i as int),
        decreases assertion_file.len() - i,
    {
        let ghost before = dir@;
        dir.push(assertion_file[i].clone());
        assert(comps(dir@) =~= comps(before).push(assertion_file@[i as int]@));
        assert(comps(assertion_file@).take(i + 1) =~= comps(assertion_file@).take(i as int).push(assertion_file@[i as int]@));
        i += 1;
    }
    assert(comps(assertion_file@).take(i as int) =~= comps(assertion_file@).drop_last());
    let mut root: Vec<String> = Vec::new();
    let mut k: usize = 0;
    while k < cargo_workspace.len()
        invariant
            k <= cargo_workspace@.len(),
            comps(root@) == comps(cargo_workspace@).take(k as int),
        decreases cargo_workspace.len() - k,
    {
        let ghost before = root@;
        root.push(cargo_workspace[k].clone());
        assert(comps(root@) =~= comps(before).push(cargo_workspace@[k as int]@));
        assert(comps(cargo_workspace@).take(k + 1) =~= comps(cargo_workspace@).take(k as int).push(cargo_workspace@[k as int]@));
        k += 1;
    }
    assert(comps(cargo_workspace@).take(k as int) =~= comps(cargo_workspace@));
    let a = join_comps(root, &dir);
    let b = join_comps(a, snapshot_path);
    let name = snapshot_file_name(module, assertion_file, snapshot_name, is_doctest, prepend_module);
    let mut last: Vec<String> = Vec::new();
    last.push(name);
    assert(comps(last@) =~= seq![snapshot_file_part(module@, comps(assertion_file@), snapshot_name@, is_doctest, prepend_module)]);
    join_comps(b, &last)
}

// ---------------------------------------------------------------------
// Duplicates
// ---------------------------------------------------------------------
/// The key of an inline snapshot assertion: its function, file and line.
pub open spec fn inline_key(function_name: Seq<char>, assertion_file: Seq<char>, line: u32) -> Seq<char> {
    function_name + seq!['|'] + assertion_file + seq!['|'] + dec_nat(line as nat)
}

fn inline_key_of(function_name: &str, assertion_file: &str, line: u32) -> (r: String)
    ensures
        r@ == inline_key(function_name@, assertion_file@, line),
{
    let mut k = chars_of(function_name);
    k.push('|');
    crate::text::push_str(&mut k, assertion_file);
    k.push('|');
    push_all(&mut k, decimal(line as usize).as_slice());
    string_from(k.as_slice())
}

/// The inline snapshot assertions run so far.
pub struct InlineDuplicates {
    keys: Vec<String>,
}

impl View for InlineDuplicates {
    type V = Seq<Seq<char>>;

    closed spec fn view(&self) -> Seq<Seq<char>> {
        self.keys@.map_values(|k: String| k@)
    }
}

impl InlineDuplicates {
    /// No assertions run yet.
    pub fn new() -> (r: InlineDuplicates)
        ensures
            r@ == Seq::<Seq<char>>::empty(),
    {
        let r = InlineDuplicates { keys: Vec::new() };
        assert(r@ =~= Seq::<Seq<char>>::empty());
        r
    }

    /// Whether the inline assertion at this place ran before.
    pub fn is_duplicate(&self, function_name: &str, assertion_file: &str, assertion_line: u32) -> (r:
        bool)
        ensures
            r == self@.contains(inline_key(function_name@, assertion_file@, assertion_line)),
    {
        let key = inline_key_of(function_name, assertion_file, assertion_line);
        let mut i: usize = 0;
        while i < self.keys.len()
            invariant
                i <= self.keys@.len(),
                key@ == inline_key(function_name@, assertion_file@, assertion_line),
                forall|j: int| 0 <= j < i ==> self@[j] != key@,
            decreases self.keys.len() - i,
        {
            if crate::env::str_eq(self.keys[i].as_str(), key.as_str()) {
                assert(self@[i as int] == key@);
                return true;
            }
            i += 1;
        }
        false
    }

    /// Records an inline assertion, which must not have run before: inline
    /// snapshot assertions are not allowed in loops.
    pub fn prevent_inline_duplicate(
        &mut self,
        function_name: &str,
        assertion_file: &str,
        assertion_line: u32,
    )
        requires
            !old(self)@.contains(inline_key(function_name@, assertion_file@, assertion_line)),
        ensures
            final(self)@ == old(self)@.push(inline_key(function_name@, assertion_file@, assertion_line)),
    {
        let key = inline_key_of(function_name, assertion_file, assertion_line);
        let ghost before = self@;
        self.keys.push(key);
        assert(self@ =~= before.push(inline_key(function_name@, assertion_file@, assertion_line)));
    }
}

/// The snapshot recorded under a key in a block that allows duplicates.
pub open spec fn recorded(frame: Seq<(Seq<char>, Seq<char>)>, key: Seq<char>) -> Option<Seq<char>>
    decreases frame.len(),
{
    if frame.len() == 0 {
        None
    } else if frame[0].0 == key {
        Some(frame[0].1)
    } else {
        recorded(frame.drop_first(), key)
    }
}

/// The snapshots recorded in the blocks that allow duplicates, innermost
/// last.
pub struct DuplicateRecords {
    frames: Vec<Vec<(String, SnapshotContents)>>,
}

impl View for DuplicateRecords {
    type V = Seq<Seq<(Seq<char>, Seq<char>)>>;

    closed spec fn view(&self) -> Seq<Seq<(Seq<char>, Seq<char>)>> {
        self.frames@.map_values(
            |f: Vec<(String, SnapshotContents)>|
                f@.map_values(|e: (String, SnapshotContents)| (e.0@, e.1@)),
        )
    }
}

impl DuplicateRecords {
    /// Outside any block.
    pub fn new() -> (r: DuplicateRecords)
        ensures
            r@.len() == 0,
    {
        DuplicateRecords { frames: Vec::new() }
    }

    /// Do we allow recording of duplicates?
    pub fn allow_duplicates(&self) -> (r: bool)
        ensures
            r == (self@.len() > 0),
    {
        self.frames.len() > 0
    }

    /// Enters a block that allows duplicates.
    pub fn enter(&mut self)
        ensures
            final(self)@ == old(self)@.push(Seq::empty()),
    {
        let ghost before = self@;
        self.frames.push(Vec::new());
        assert(self@[self@.len() - 1] =~= Seq::<(Seq<char>, Seq<char>)>::empty());
        assert(self@ =~= before.push(Seq::empty()));
    }

    /// Leaves the innermost block.
    pub fn leave(&mut self)
        requires
            old(self)@.len() > 0,
        ensures
            final(self)@ == old(self)@.drop_last(),
    {
        let ghost before = self@;
        let _ = self.frames.pop();
        assert(self@ =~= before.drop_last());
    }

    /// Whether a snapshot recorded under the key in the innermost block
    /// differs from `contents`.
    pub fn conflicts(&self, key: &str, contents: &SnapshotContents) -> (r: bool)
        requires
            self@.len() > 0,
        ensures
            r == match recorded(self@.last(), key@) {
                Some(prev) => prev != contents@,
                None => false,
            },
    {
        let top = &self.frames[self.frames.len() - 1];
        let ghost fv = self@.last();
        assert(fv == top@.map_values(|e: (String, SnapshotContents)| (e.0@, e.1@)));
        let mut i: usize = 0;
        assert(fv.skip(0) =~= fv);
        while i < top.len()
            invariant
                i <= top@.len(),
                fv == top@.map_values(|e: (String, SnapshotContents)| (e.0@, e.1@)),
                fv == self@.last(),
                recorded(fv, key@) == recorded(fv.skip(i as int), key@),
            decreases top.len() - i,
        {
            let e = &top[i];
            assert(fv.skip(i as int)[0] == (e.0@, e.1@));
            assert(fv.skip(i as int).drop_first() =~= fv.skip(i + 1));
            if crate::env::str_eq(e.0.as_str(), key) {
                assert(recorded(fv.skip(i as int), key@) == Some(e.1@));
                return !e.1.matches_fully(contents);
            }
            i += 1;
        }
        assert(fv.skip(i as int) =~= Seq::<(Seq<char>, Seq<char>)>::empty());
        false
    }

    /// Records a snapshot of a block that allows duplicates; a snapshot
    /// recorded under the key before must be the same.
    pub fn record_snapshot_duplicate(&mut self, key: &str, contents: &SnapshotContents)
        requires
            old(self)@.len() > 0,
            match recorded(old(self)@.last(), key@) {
                Some(prev) => prev == contents@,
                None => true,
            },
        ensures
            final(self)@.len() == old(self)@.len(),
            recorded(final(self)@.last(), key@) == Some(contents@),
            final(self)@.drop_last() == old(self)@.drop_last(),
    {
        let n = self.frames.len();
        let ghost before = self@;
        let mut top = self.frames.pop().unwrap();
        let ghost fv = top@.map_values(|e: (String, SnapshotContents)| (e.0@, e.1@));
        assert(fv == before.last());
        let mut found = false;
        let mut i: usize = 0;
        assert(fv.skip(0) =~= fv);
        while i < top.len() && !found
            invariant
                i <= top@.len(),
                fv == top@.map_values(|e: (String, SnapshotContents)| (e.0@, e.1@)),
                recorded(fv, key@) == recorded(fv.skip(i as int), key@),
                found ==> recorded(fv, key@) == Some(fv[i as int].1) && i < top@.len(),
            decreases top.len() - i, if found { 0nat } else { 1nat },
        {
            assert(fv.skip(i as int)[0] == (top@[i as int].0@, top@[i as int].1@));
            assert(fv.skip(i as int).drop_first() =~= fv.skip(i + 1));
            if crate::env::str_eq(top[i].0.as_str(), key) {
                found = true;
            } else {
                i += 1;
            }
        }
        if !found {
            assert(fv.skip(i as int) =~= Seq::<(Seq<char>, Seq<char>)>::empty());
            let k = string_from(chars_of(key).as_slice());
            top.push((k, contents.clone()));
            proof {
                lemma_recorded_push(fv, (key@, contents@), key@);
                assert(top@.map_values(|e: (String, SnapshotContents)| (e.0@, e.1@)) =~= fv.push(
                    (key@, contents@),
                ));
            }
        }
        self.frames.push(top);
        assert(self@.drop_last() =~= before.drop_last());
    }
}

proof fn lemma_recorded_push(frame: Seq<(Seq<char>, Seq<char>)>, e: (Seq<char>, Seq<char>), d: Seq<char>)
    requires
        recorded(frame, e.0) is None,
    ensures
        recorded(frame.push(e), d) == if d == e.0 {
            Some(e.1)
        } else {
            recorded(frame, d)
        },
    decreases frame.len(),
{
    let p = frame.push(e);
    if frame.len() > 0 {
        assert(p[0] == frame[0]);
        assert(p.drop_first() =~= frame.drop_first().push(e));
        lemma_recorded_push(frame.drop_first(), e, d);
        if frame[0].0 == d {
            assert(recorded(p, d) == Some(frame[0].1));
        } else {
            assert(recorded(p, d) == recorded(p.drop_first(), d));
        }
    } else {
        assert(p[0] == e);
        assert(p.drop_first() =~= Seq::<(Seq<char>, Seq<char>)>::empty());
    }
}

// ---------------------------------------------------------------------
// The assertion
// ---------------------------------------------------------------------
/// What a snapshot assertion decided.
#[derive(Debug, Clone, Copy, PartialEq, Eq, Structural)]
pub struct AssertionOutcome {
    /// The new snapshot matches the old one.
    pub pass: bool,
    /// How the snapshot is written back, where it is.
    pub update: Option<SnapshotUpdateBehavior>,
    /// The assertion fails the test.
    pub fail: bool,
    /// The hint to review the snapshots is shown.
    pub review_hint: bool,
    /// The note that the run stopped on the first failure is shown.
    pub stop_hint: bool,
}

/// Whether the new contents match the old: exactly where the config
/// requires a full match, else but for trailing whitespace.
pub open spec fn contents_match(old: Option<Seq<char>>, new: Seq<char>, full: bool) -> bool {
    match old {
        Some(o) => if full {
            o == new
        } else {
            trim_end(o) == trim_end(new)
        },
        None => false,
    }
}

/// How a snapshot is written back: by the update setting, except that an
/// inline snapshot (one without a file) is never updated in place.
pub open spec fn update_kind(config: ToolConfig, has_snapshot_file: bool, snapshot_file_exists: bool, ci: bool) -> SnapshotUpdateBehavior {
    let b = update_behavior(config.snapshot_update, snapshot_file_exists, ci);
    if b == SnapshotUpdateBehavior::InPlace && !has_snapshot_file {
        SnapshotUpdateBehavior::NewFile
    } else {
        b
    }
}

/// The decision of a snapshot assertion, given whether the new snapshot
/// matched the old one.
pub open spec fn decision(
    config: ToolConfig,
    pass: bool,
    has_snapshot_file: bool,
    snapshot_file_exists: bool,
    ci: bool,
    fail_fast: bool,
    is_doctest: bool,
) -> AssertionOutcome {
    let u = update_kind(config, has_snapshot_file, snapshot_file_exists, ci);
    if pass {
        AssertionOutcome {
            pass: true,
            update: if config.snapshot_update == SnapshotUpdate::Force {
                Some(u)
            } else {
                None
            },
            fail: false,
            review_hint: false,
            stop_hint: false,
        }
    } else {
        let shown = config.output != crate::env::OutputBehavior::Nothing;
        let fail = u != SnapshotUpdateBehavior::InPlace && !config.force_pass;
        AssertionOutcome {
            pass: false,
            update: Some(u),
            fail,
            review_hint: fail_fast && u == SnapshotUpdateBehavior::NewFile && shown && !is_doctest,
            stop_hint: fail && fail_fast && shown,
        }
    }
}

/// Decides how a snapshot assertion ends, given whether the new snapshot
/// matched the old one: how the snapshot is written back, and whether the
/// test fails.  `snapshot_file_exists` tells whether the snapshot file
/// exists already, `ci` whether this runs in CI, and `fail_fast` whether a
/// failure stops the run.
pub fn finish_assertion(
    config: &ToolConfig,
    pass: bool,
    has_snapshot_file: bool,
    snapshot_file_exists: bool,
    ci: bool,
    fail_fast: bool,
    is_doctest: bool,
) -> (r: AssertionOutcome)
    ensures
        r == decision(*config, pass, has_snapshot_file, snapshot_file_exists, ci, fail_fast, is_doctest),
{
    let b = crate::env::snapshot_update_behavior(config, snapshot_file_exists, ci);
    let u = if b == SnapshotUpdateBehavior::InPlace && !has_snapshot_file {
        SnapshotUpdateBehavior::NewFile
    } else {
        b
    };
    if pass {
        AssertionOutcome {
            pass: true,
            update: if config.snapshot_update() == SnapshotUpdate::Force {
                Some(u)
            } else {
                None
            },
            fail: false,
            review_hint: false,
            stop_hint: false,
        }
    } else {
        let shown = config.output_behavior() != crate::env::OutputBehavior::Nothing;
        let fail = u != SnapshotUpdateBehavior::InPlace && !config.force_pass();
        AssertionOutcome {
            pass: false,
            update: Some(u),
            fail,
            review_hint: fail_fast && u == SnapshotUpdateBehavior::NewFile && shown && !is_doctest,
            stop_hint: fail && fail_fast && shown,
        }
    }
}

/// Decides how snapshots are compared; users implement it for custom
/// comparisons.
pub trait Comparator {
    /// Whether `test` matches `reference`.
    fn matches(&self, config: &ToolConfig, reference: &Snapshot, test: &Snapshot) -> bool;
}

/// Whether `test` matches `reference` by the default comparison: their
/// contents match (exactly where the config requires a full match), and
/// under a full match a snapshot kept in a file must also carry the same
/// metadata, but for the assertion line, which a file does not keep.
pub open spec fn snapshots_match(config: ToolConfig, reference: Snapshot, test: Snapshot) -> bool {
    &&& contents_match(Some(reference@.contents), test@.contents, config.require_full_match)
    &&& (config.require_full_match && reference.stored_kind() == TextSnapshotKind::File ==> persisted(
        reference@.metadata,
    ) == persisted(test@.metadata))
}

/// Compares snapshots exactly, metadata included, where the config
/// requires a full match, and otherwise but for trailing whitespace.
pub struct DefaultComparator;

impl Comparator for DefaultComparator {
    fn matches(&self, config: &ToolConfig, reference: &Snapshot, test: &Snapshot) -> (r: bool)
        ensures
            r == snapshots_match(*config, *reference, *test),
    {
        if config.require_full_match() {
            let exact = reference.contents().matches_fully(test.contents());
            match reference.kind() {
                TextSnapshotKind::File => reference.metadata().persisted_equal(test.metadata()) && exact,
                TextSnapshotKind::Inline => exact,
            }
        } else {
            reference.contents().matches(test.contents())
        }
    }
}

/// Whether a new snapshot matches the old one, where there is one, with
/// the default comparison.
pub fn matches_snapshot(config: &ToolConfig, old: Option<&SnapshotContents>, new: &SnapshotContents) -> (r: bool)
    ensures
        r == contents_match(
            match old {
                Some(o) => Some(o@),
                None => None,
            },
            new@,
            config.require_full_match,
        ),
{
    match old {
        Some(o) => if config.require_full_match() {
            o.matches_fully(new)
        } else {
            o.matches(new)
        },
        None => false,
    }
}

/// The decision of a snapshot assertion with the default comparison.
pub open spec fn outcome(
    config: ToolConfig,
    old: Option<Seq<char>>,
    new: Seq<char>,
    has_snapshot_file: bool,
    snapshot_file_exists: bool,
    ci: bool,
    fail_fast: bool,
    is_doctest: bool,
) -> AssertionOutcome {
    decision(
        config,
        contents_match(old, new, config.require_full_match),
        has_snapshot_file,
        snapshot_file_exists,
        ci,
        fail_fast,
        is_doctest,
    )
}

/// Decides a snapshot assertion: whether the new contents match the old
/// ones (where there are any), how the snapshot is written back, and
/// whether the test fails.  `snapshot_file_exists` tells whether the
/// snapshot file exists already, `ci` whether this runs in CI, and
/// `fail_fast` whether a failure stops the run.
pub fn assert_snapshot(
    config: &ToolConfig,
    old: Option<&SnapshotContents>,
    new: &SnapshotContents,
    has_snapshot_file: bool,
    snapshot_file_exists: bool,
    ci: bool,
    fail_fast: bool,
    is_doctest: bool,
) -> (r: AssertionOutcome)
    ensures
        r == outcome(
            *config,
            match old {
                Some(o) => Some(o@),
                None => None,
            },
            new@,
            has_snapshot_file,
            snapshot_file_exists,
            ci,
            fail_fast,
            is_doctest,
        ),
{
    let pass = matches_snapshot(config, old, new);
    finish_assertion(config, pass, has_snapshot_file, snapshot_file_exists, ci, fail_fast, is_doctest)
}


/// How an assertion ends: a snapshot that matches passes and is only
/// written back when updates are forced; `force_pass` never lets an
/// assertion fail; a mismatch fails unless the snapshot is rewritten in
/// place; with updates set to `no`, or to `auto` in CI, nothing is written
/// and a mismatch fails (unless passes are forced).
pub proof fn lemma_assertion_outcomes(
    config: ToolConfig,
    old: Option<Seq<char>>,
    new: Seq<char>,
    has_snapshot_file: bool,
    snapshot_file_exists: bool,
    ci: bool,
    fail_fast: bool,
    is_doctest: bool,
)
    ensures
        ({
            let o = outcome(
                config,
                old,
                new,
                has_snapshot_file,
                snapshot_file_exists,
                ci,
                fail_fast,
                is_doctest,
            );
            &&& o.pass == contents_match(old, new, config.require_full_match)
            &&& o.pass ==> !o.fail
            &&& o.pass && config.snapshot_update != SnapshotUpdate::Force ==> o.update is None
            &&& config.force_pass ==> !o.fail
            &&& !o.pass ==> (o.fail <==> (o.update != Some(SnapshotUpdateBehavior::InPlace)
                && !config.force_pass))
            &&& !o.pass && has_snapshot_file && config.snapshot_update == SnapshotUpdate::Always
                ==> o.update == Some(SnapshotUpdateBehavior::InPlace) && !o.fail
            &&& !o.pass && (config.snapshot_update == SnapshotUpdate::No || (
            config.snapshot_update == SnapshotUpdate::Auto && ci)) ==> o.update == Some(
                SnapshotUpdateBehavior::NoUpdate,
            ) && o.fail == !config.force_pass
            &&& old is None ==> !o.pass
        }),
{
}

// ---------------------------------------------------------------------
// Assertions over the files of a glob
// ---------------------------------------------------------------------
/// What a run of assertions over the files of a glob has seen: whether a
/// failure stops the run, how many assertions failed, and whether the
/// hint to review snapshots is due.
#[derive(Debug, Clone, Copy, PartialEq, Eq, Structural)]
pub struct GlobCollector {
    pub fail_fast: bool,
    pub failed: usize,
    pub show_insta_hint: bool,
}

/// How a run of assertions over the files of a glob ends.
#[derive(Debug, Clone, Copy, PartialEq, Eq, Structural)]
pub struct GlobSummary {
    /// The hint to review snapshots is shown.
    pub review_hint: bool,
    /// The hint to enable failing fast is shown.
    pub fail_fast_hint: bool,
    /// The number of failed assertions; where there is one, the run fails.
    pub failures: usize,
}

/// Whether a failure stops the run: as the innermost glob run says, and
/// always outside one.
pub fn assertion_fail_fast(innermost: Option<&GlobCollector>) -> (r: bool)
    ensures
        r == match innermost {
            Some(g) => g.fail_fast,
            None => true,
        },
{
    match innermost {
        Some(g) => g.fail_fast,
        None => true,
    }
}

impl GlobCollector {
    /// A run that has seen nothing yet.
    pub fn new(fail_fast: bool) -> (r: GlobCollector)
        ensures
            r == (GlobCollector { fail_fast, failed: 0, show_insta_hint: false }),
    {
        GlobCollector { fail_fast, failed: 0, show_insta_hint: false }
    }

    /// Records a failed assertion of the run, whose snapshot was written back
    /// as `update`: the review hint becomes due where it went to a new
    /// file and output is shown.
    pub fn record_failure(&mut self, update: SnapshotUpdateBehavior, output_shown: bool)
        requires
            old(self).failed < usize::MAX,
        ensures
            final(self).fail_fast == old(self).fail_fast,
            final(self).failed == old(self).failed + 1,
            final(self).show_insta_hint == (old(self).show_insta_hint || (update
                == SnapshotUpdateBehavior::NewFile && output_shown)),
    {
        self.failed = self.failed + 1;
        if update == SnapshotUpdateBehavior::NewFile && output_shown {
            self.show_insta_hint = true;
        }
    }

    /// How the run ends: with failures it shows the review hint where it is
    /// due, and the hint to fail fast where more than one assertion failed.
    pub fn summary(&self) -> (r: GlobSummary)
        ensures
            r.failures == self.failed,
            r.review_hint == (self.failed > 0 && self.show_insta_hint),
            r.fail_fast_hint == (self.failed > 1),
    {
        GlobSummary {
            review_hint: self.failed > 0 && self.show_insta_hint,
            fail_fast_hint: self.failed > 1,
            failures: self.failed,
        }
    }
}

/// The update modes as documented, for a snapshot stored in a file: a
/// failing assertion under `auto` writes a new file for review outside CI
/// and nothing in CI; under `new` it writes a new file; under `always` it
/// writes the snapshot file; under `unseen` it writes the snapshot file
/// where there was none and a new file for review where there was one;
/// under `no` it writes nothing; and under `force` even a passing
/// assertion writes the snapshot file.
pub proof fn lemma_update_modes(
    config: ToolConfig,
    old: Option<Seq<char>>,
    new: Seq<char>,
    snapshot_file_exists: bool,
    ci: bool,
    fail_fast: bool,
    is_doctest: bool,
)
    ensures
        ({
            let o = outcome(config, old, new, true, snapshot_file_exists, ci, fail_fast, is_doctest);
            let u = config.snapshot_update;
            &&& !o.pass && u == SnapshotUpdate::Auto ==> o.update == Some(
                if ci {
                    SnapshotUpdateBehavior::NoUpdate
                } else {
                    SnapshotUpdateBehavior::NewFile
                },
            )
            &&& !o.pass && u == SnapshotUpdate::New ==> o.update == Some(
                SnapshotUpdateBehavior::NewFile,
            )
            &&& !o.pass && u == SnapshotUpdate::Always ==> o.update == Some(
                SnapshotUpdateBehavior::InPlace,
            )
            &&& !o.pass && u == SnapshotUpdate::Unseen ==> o.update == Some(
                if snapshot_file_exists {
                    SnapshotUpdateBehavior::NewFile
                } else {
                    SnapshotUpdateBehavior::InPlace
                },
            )
            &&& !o.pass && u == SnapshotUpdate::No ==> o.update == Some(
                SnapshotUpdateBehavior::NoUpdate,
            )
            &&& u == SnapshotUpdate::Force ==> o.update == Some(SnapshotUpdateBehavior::InPlace)
        }),
{
}

/// An inline snapshot, which has no file of its own, is never written in
/// place: where the mode would write it in place, it goes to review.
pub proof fn lemma_inline_never_in_place(
    config: ToolConfig,
    old: Option<Seq<char>>,
    new: Seq<char>,
    ci: bool,
    fail_fast: bool,
    is_doctest: bool,
)
    ensures
        outcome(config, old, new, false, false, ci, fail_fast, is_doctest).update != Some(
            SnapshotUpdateBehavior::InPlace,
        ),
{
}

} // verus!
