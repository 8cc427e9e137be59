//! Which files a glob assertion runs for: the walked files whose path
//! below the base matches the pattern, those of them that pass the glob
//! filter, in the order of their paths, and the snapshot suffix of each.
use vstd::prelude::*;

use crate::content::order::{
    Order, Sortable, chars_order, compare_strs, insertion_sort, is_sorted,
    lemma_chars_order_reversed, sorted_seq, views,
};
use crate::env::str_eq;
use crate::paths::{common_len, comps, find_common_prefix};
use crate::text::{chars_of, join, push_all, string_from};

verus! {

broadcast use vstd::std_specs::vec::group_vec_axioms;

/// Whether `p` is a glob pattern that `globset` builds, matching case
/// insensitively with `*` and `?` not matching a path separator.
pub uninterp spec fn glob_ok(p: Seq<char>) -> bool;

/// Whether the glob `p`, built so, matches `path`.
pub uninterp spec fn glob_match(p: Seq<char>, path: Seq<char>) -> bool;

/// Whether `p` is a glob filter that `globset` builds, matching case
/// insensitively.
pub uninterp spec fn filter_ok(p: Seq<char>) -> bool;

/// Whether the glob filter `p`, built so, matches `path`.
pub uninterp spec fn filter_match(p: Seq<char>, path: Seq<char>) -> bool;

/// `globset`'s `GlobBuilder` with `case_insensitive(true)` and
/// `literal_separator(true)`: `None` where the pattern does not build,
/// else whether its matcher matches the path.  Both are functions of the
/// pattern and the path alone.
#[verifier::external_body]
fn glob_is_match(pattern: &str, path: &str) -> (r: Option<bool>)
    ensures
        (r is Some) == glob_ok(pattern@),
        r matches Some(b) ==> b == glob_match(pattern@, path@),
{
    match globset::GlobBuilder::new(pattern).case_insensitive(true).literal_separator(true).build() {
        Ok(glob) => Some(glob.compile_matcher().is_match(path)),
        Err(_) => None,
    }
}

/// `globset`'s `GlobBuilder` with `case_insensitive(true)` only: `None`
/// where the filter does not build, else whether its matcher matches the
/// path.
#[verifier::external_body]
fn filter_is_match(filter: &str, path: &str) -> (r: Option<bool>)
    ensures
        (r is Some) == filter_ok(filter@),
        r matches Some(b) ==> b == filter_match(filter@, path@),
{
    match globset::GlobBuilder::new(filter).case_insensitive(true).build() {
        Ok(glob) => Some(glob.compile_matcher().is_match(path)),
        Err(_) => None,
    }
}

/// A walked file: its path, component by component, and its path below
/// the base of the walk as text.
#[derive(Debug)]
pub struct WalkedFile {
    pub path: Vec<String>,
    pub relative: String,
}

impl View for WalkedFile {
    type V = (Seq<Seq<char>>, Seq<char>);

    open spec fn view(&self) -> (Seq<Seq<char>>, Seq<char>) {
        (comps(self.path@), self.relative@)
    }
}

/// The order of two paths from component `i` on: by the first component
/// in which they differ, else by their number of components.
pub open spec fn path_order(a: Seq<Seq<char>>, b: Seq<Seq<char>>, i: nat) -> Order
    decreases a.len() - i,
{
    if i >= a.len() || i >= b.len() {
        crate::content::order::order_of(a.len() as int, b.len() as int)
    } else if a[i as int] != b[i as int] {
        chars_order(a[i as int], b[i as int], 0)
    } else {
        path_order(a, b, i + 1)
    }
}

proof fn lemma_path_order_reversed(a: Seq<Seq<char>>, b: Seq<Seq<char>>, i: nat)
    ensures
        path_order(b, a, i) == path_order(a, b, i).reversed(),
    decreases a.len() - i,
{
    if !(i >= a.len() || i >= b.len()) {
        if a[i as int] == b[i as int] {
            lemma_path_order_reversed(a, b, i + 1);
        } else {
            lemma_chars_order_reversed(a[i as int], b[i as int], 0);
        }
    }
}

impl Sortable for WalkedFile {
    open spec fn before(a: (Seq<Seq<char>>, Seq<char>), b: (Seq<Seq<char>>, Seq<char>)) -> bool {
        path_order(a.0, b.0, 0) == Order::Less
    }

    proof fn lemma_before_asymmetric(a: (Seq<Seq<char>>, Seq<char>), b: (Seq<Seq<char>>, Seq<char>)) {
        lemma_path_order_reversed(a.0, b.0, 0);
    }

    fn goes_before(&self, other: &WalkedFile) -> (r: bool) {
        let a = &self.path;
        let b = &other.path;
        let mut i: usize = 0;
        while i < a.len() && i < b.len()
            invariant
                *a == self.path,
                *b == other.path,
                i <= a@.len(),
                i <= b@.len(),
                path_order(comps(a@), comps(b@), 0) == path_order(comps(a@), comps(b@), i as nat),
            decreases a.len() - i,
        {
            assert(comps(a@)[i as int] == a@[i as int]@ && comps(b@)[i as int] == b@[i as int]@);
            if !str_eq(a[i].as_str(), b[i].as_str()) {
                let o = compare_strs(a[i].as_str(), b[i].as_str());
                assert(path_order(comps(a@), comps(b@), i as nat) == chars_order(
                    a@[i as int]@,
                    b@[i as int]@,
                    0,
                ));
                return matches!(o, Order::Less);
            }
            i += 1;
        }
        a.len() < b.len()
    }
}

fn copy_comps(p: &Vec<String>) -> (r: Vec<String>)
    ensures
        comps(r@) == comps(p@),
{
    let mut out: Vec<String> = Vec::new();
    let mut i: usize = 0;
    while i < p.len()
        invariant
            i <= p@.len(),
            comps(out@) == comps(p@).take(i as int),
        decreases p.len() - i,
    {
        let ghost before = out@;
        let s = string_from(chars_of(p[i].as_str()).as_slice());
        out.push(s);
        assert(comps(out@) =~= comps(before).push(p@[i as int]@));
        assert(comps(p@).take(i + 1) =~= comps(p@).take(i as int).push(p@[i as int]@));
        i += 1;
    }
    assert(comps(p@).take(p@.len() as int) =~= comps(p@));
    out
}

fn copy_file(f: &WalkedFile) -> (r: WalkedFile)
    ensures
        r@ == f@,
{
    WalkedFile {
        path: copy_comps(&f.path),
        relative: string_from(chars_of(f.relative.as_str()).as_slice()),
    }
}

/// The walked files whose relative path the pattern matches, in the
/// order of the walk.
pub open spec fn matched(p: Seq<char>, ws: Seq<(Seq<Seq<char>>, Seq<char>)>) -> Seq<
    (Seq<Seq<char>>, Seq<char>),
>
    decreases ws.len(),
{
    if ws.len() == 0 {
        seq![]
    } else {
        let rest = matched(p, ws.drop_last());
        if glob_match(p, ws.last().1) {
            rest.push(ws.last())
        } else {
            rest
        }
    }
}

/// Whether a relative path passes the filters: where none of them builds
/// every path passes, else a path passes when one that builds matches it.
pub open spec fn passes(fs: Seq<Seq<char>>, rel: Seq<char>) -> bool {
    (forall|i: int| 0 <= i < fs.len() ==> !filter_ok(#[trigger] fs[i])) || exists|i: int|
        0 <= i < fs.len() && filter_ok(#[trigger] fs[i]) && filter_match(fs[i], rel)
}

/// The files that pass the filters, in order.
pub open spec fn kept(fs: Seq<Seq<char>>, ws: Seq<(Seq<Seq<char>>, Seq<char>)>) -> Seq<
    (Seq<Seq<char>>, Seq<char>),
>
    decreases ws.len(),
{
    if ws.len() == 0 {
        seq![]
    } else {
        let rest = kept(fs, ws.drop_last());
        if passes(fs, ws.last().1) {
            rest.push(ws.last())
        } else {
            rest
        }
    }
}

/// The leading components that the first and the last of sorted files
/// share, where they share any.
pub open spec fn common_prefix_of(sorted: Seq<(Seq<Seq<char>>, Seq<char>)>) -> Option<Seq<Seq<char>>> {
    if sorted.len() == 0 {
        None
    } else {
        let first = sorted[0].0;
        let k = common_len(first, sorted[sorted.len() - 1].0);
        if k == 0 {
            None
        } else {
            Some(first.take(k as int))
        }
    }
}

/// The snapshot suffix of a path: the path below the common prefix, its
/// components joined by `/`; where there is no common prefix, or it does
/// not lead the path, the path's file name, its last component.
pub open spec fn suffix_of(path: Seq<Seq<char>>, prefix: Option<Seq<Seq<char>>>) -> Seq<char> {
    match prefix {
        Some(pre) => if pre.len() <= path.len() && path.take(pre.len() as int) == pre {
            join(path.skip(pre.len() as int), seq!['/'])
        } else {
            file_name_of(path)
        },
        None => file_name_of(path),
    }
}

/// The last component of a path (none where it has none).
pub open spec fn file_name_of(path: Seq<Seq<char>>) -> Seq<char> {
    if path.len() == 0 {
        seq![]
    } else {
        path.last()
    }
}

/// The files a glob assertion runs for.
#[derive(Debug)]
pub struct GlobSelection {
    /// The walked files that match the pattern, sorted by path.
    pub matching: Vec<WalkedFile>,
    /// Those of them that pass the filters, sorted by path.
    pub selected: Vec<WalkedFile>,
    /// The snapshot suffix of each selected file.
    pub suffixes: Vec<String>,
}

fn filters_pass(filters: &[String], rel: &str) -> (r: bool)
    ensures
        r == passes(filters@.map_values(|f: String| f@), rel@),
{
    let ghost fs = filters@.map_values(|f: String| f@);
    let mut any_ok = false;
    let mut i: usize = 0;
    while i < filters.len()
        invariant
            fs == filters@.map_values(|f: String| f@),
            i <= filters@.len(),
            any_ok == exists|j: int| 0 <= j < i && filter_ok(#[trigger] fs[j]),
            forall|j: int| 0 <= j < i && filter_ok(#[trigger] fs[j]) ==> !filter_match(fs[j], rel@),
        decreases filters.len() - i,
    {
        match filter_is_match(filters[i].as_str(), rel) {
            Some(b) => {
                assert(filter_ok(fs[i as int]));
                if b {
                    assert(0 <= i < fs.len() && filter_ok(fs[i as int]) && filter_match(fs[i as int], rel@));
                    return true;
                }
                any_ok = true;
            },
            None => {},
        }
        i += 1;
    }
    if any_ok {
        false
    } else {
        assert forall|j: int| 0 <= j < fs.len() implies !filter_ok(#[trigger] fs[j]) by {
            assert(!(0 <= j < i && filter_ok(fs[j])));
        }
        true
    }
}

fn joined_below(path: &Vec<String>, from: usize) -> (r: String)
    requires
        from <= path@.len(),
    ensures
        r@ == join(comps(path@).skip(from as int), seq!['/']),
{
    let ghost cs = comps(path@);
    let mut out: Vec<char> = Vec::new();
    let mut i = from;
    while i < path.len()
        invariant
            cs == comps(path@),
            from <= i <= path@.len(),
            out@ == join(cs.subrange(from as int, i as int), seq!['/']),
        decreases path.len() - i,
    {
        let ghost t = cs.subrange(from as int, i as int);
        if i > from {
            out.push('/');
        }
        let c = chars_of(path[i].as_str());
        push_all(&mut out, c.as_slice());
        proof {
            let s = cs.subrange(from as int, i + 1);
            assert(s.drop_last() =~= t);
            assert(s.last() == path@[i as int]@);
            if i > from {
                assert(out@ =~= join(t, seq!['/']) + seq!['/'] + s.last());
            } else {
                assert(t.len() == 0);
                assert(out@ =~= s[0]);
            }
        }
        i += 1;
    }
    assert(cs.subrange(from as int, path@.len() as int) =~= cs.skip(from as int));
    string_from(out.as_slice())
}

fn suffix(path: &Vec<String>, prefix: &Option<Vec<String>>) -> (r: String)
    ensures
        r@ == suffix_of(
            comps(path@),
            match prefix {
                Some(p) => Some(comps(p@)),
                None => None,
            },
        ),
{
    let last = if path.len() == 0 {
        String::new()
    } else {
        string_from(chars_of(path[path.len() - 1].as_str()).as_slice())
    };
    assert(last@ == file_name_of(comps(path@)));
    match prefix {
        Some(pre) => {
            if pre.len() > path.len() {
                return last;
            }
            let mut i: usize = 0;
            while i < pre.len()
                invariant
                    pre@.len() <= path@.len(),
                    i <= pre@.len(),
                    last@ == file_name_of(comps(path@)),
                    *prefix == Some(*pre),
                    forall|j: int| 0 <= j < i ==> comps(path@)[j] == comps(pre@)[j],
                decreases pre.len() - i,
            {
                if !str_eq(path[i].as_str(), pre[i].as_str()) {
                    assert(comps(path@).take(pre@.len() as int)[i as int] != comps(pre@)[i as int]);
                    return last;
                }
                i += 1;
            }
            assert(comps(path@).take(pre@.len() as int) =~= comps(pre@));
            joined_below(path, pre.len())
        },
        None => last,
    }
}

/// The files a glob assertion runs for, from the files of the walk: those
/// whose relative path `pattern` matches, sorted by path; those of them
/// that pass the glob `filters`, sorted by path; and for each of these its
/// snapshot suffix, below the prefix that all matching files share.
/// `None` where the pattern does not build.
pub fn select_glob_files(pattern: &str, filters: &[String], walked: &[WalkedFile]) -> (r: Option<
    GlobSelection,
>)
    requires
        forall|i: int| 0 <= i < walked@.len() ==> #[trigger] walked@[i].path@.len() > 0,
    ensures
        (r is Some) == glob_ok(pattern@),
        r matches Some(s) ==> {
            let m = matched(pattern@, views(walked@));
            let all = sorted_seq::<WalkedFile>(m);
            let sel = sorted_seq::<WalkedFile>(kept(filters@.map_values(|f: String| f@), m));
            &&& views(s.matching@) == all
            &&& views(s.selected@) == sel
            &&& is_sorted::<WalkedFile>(all) && all.to_multiset() == m.to_multiset()
            &&& s.suffixes@.len() == sel.len()
            &&& forall|i: int|
                0 <= i < sel.len() ==> #[trigger] s.suffixes@[i]@ == suffix_of(
                    sel[i].0,
                    common_prefix_of(all),
                )
        },
{
    if glob_is_match(pattern, "").is_none() {
        return None;
    }
    let ghost fs = filters@.map_values(|f: String| f@);
    let ghost ws = views(walked@);
    let mut m: Vec<WalkedFile> = Vec::new();
    let mut k: Vec<WalkedFile> = Vec::new();
    let mut i: usize = 0;
    while i < walked.len()
        invariant
            glob_ok(pattern@),
            fs == filters@.map_values(|f: String| f@),
            ws == views(walked@),
            i <= walked@.len(),
            views(m@) == matched(pattern@, ws.take(i as int)),
            views(k@) == kept(fs, matched(pattern@, ws.take(i as int))),
        decreases walked.len() - i,
    {
        let w = &walked[i];
        let hit = match glob_is_match(pattern, w.relative.as_str()) {
            Some(b) => b,
            None => false,
        };
        let ghost mb = views(m@);
        let ghost kb = views(k@);
        proof {
            assert(ws.take(i + 1).drop_last() =~= ws.take(i as int));
            assert(ws.take(i + 1).last() == w@);
        }
        if hit {
            m.push(copy_file(w));
            proof {
                assert(views(m@) =~= mb.push(w@));
                assert(matched(pattern@, ws.take(i + 1)) == mb.push(w@));
                assert(matched(pattern@, ws.take(i + 1)).drop_last() =~= mb);
            }
            if filters_pass(filters, w.relative.as_str()) {
                k.push(copy_file(w));
                assert(views(k@) =~= kb.push(w@));
            } else {
                assert(views(k@) =~= kb);
            }
        } else {
            assert(matched(pattern@, ws.take(i + 1)) == mb);
        }
        i += 1;
    }
    assert(ws.take(walked@.len() as int) =~= ws);
    let matching = insertion_sort(m);
    let selected = insertion_sort(k);
    proof {
        crate::content::order::lemma_sorted_seq::<WalkedFile>(views(m@));
        crate::content::order::lemma_sorted_seq::<WalkedFile>(views(k@));
    }
    let prefix = if matching.len() == 0 {
        None
    } else {
        let ends = vec![copy_comps(&matching[0].path), copy_comps(&matching[matching.len() - 1].path)];
        find_common_prefix(ends.as_slice())
    };
    let mut suffixes: Vec<String> = Vec::new();
    let mut j: usize = 0;
    while j < selected.len()
        invariant
            j <= selected@.len(),
            suffixes@.len() == j,
            forall|t: int| 0 <= t < j ==> #[trigger] suffixes@[t]@ == suffix_of(
                selected@[t]@.0,
                match prefix {
                    Some(p) => Some(comps(p@)),
                    None => None,
                },
            ),
        decreases selected.len() - j,
    {
        let s = suffix(&selected[j].path, &prefix);
        suffixes.push(s);
        j += 1;
    }
    Some(GlobSelection { matching, selected, suffixes })
}

} // verus!
