//! Paths as lists of components, as `Path::components` gives them: `/`
//! for the root, `.` for a leading current directory, `..` for a parent
//! directory, and names.  Joining, parents, common prefixes and relative
//! paths are computed on these lists.
use vstd::prelude::*;

verus! {

broadcast use vstd::std_specs::vec::group_vec_axioms;

/// The views of the components of a path.
pub open spec fn comps(p: Seq<String>) -> Seq<Seq<char>> {
    p.map_values(|c: String| c@)
}

/// Whether a path starts at the root.
pub open spec fn is_abs(p: Seq<Seq<char>>) -> bool {
    p.len() > 0 && p[0] == seq!['/']
}

/// `a` joined with `b`: an absolute `b` replaces `a`.
pub open spec fn join_path(a: Seq<Seq<char>>, b: Seq<Seq<char>>) -> Seq<Seq<char>> {
    if is_abs(b) {
        b
    } else {
        a + b
    }
}

/// The path without its last component, where it has one to drop (the
/// root alone and the empty path have none).
pub open spec fn parent(p: Seq<Seq<char>>) -> Option<Seq<Seq<char>>> {
    if p.len() == 0 || (p.len() == 1 && is_abs(p)) {
        None
    } else {
        Some(p.drop_last())
    }
}

/// The last component of a path, where it is a name.
pub open spec fn file_name(p: Seq<Seq<char>>) -> Option<Seq<char>> {
    if p.len() == 0 || p.last() == seq!['/'] || p.last() == seq!['.'] || p.last() == seq!['.', '.'] {
        None
    } else {
        Some(p.last())
    }
}

/// The number of leading components two paths share.
pub open spec fn common_len(a: Seq<Seq<char>>, b: Seq<Seq<char>>) -> nat
    decreases a.len(),
{
    if a.len() == 0 || b.len() == 0 || a[0] != b[0] {
        0
    } else {
        1 + common_len(a.drop_first(), b.drop_first())
    }
}

/// `n` parent-directory components.
pub open spec fn dots(n: nat) -> Seq<Seq<char>> {
    Seq::new(n, |i: int| seq!['.', '.'])
}

/// The path that leads from `base` to `path`: up out of what `base` does
/// not share with `path`, then down the rest of `path`.  An absolute path
/// from a relative base is the path itself; a relative path from an
/// absolute base has none.
pub open spec fn relative(path: Seq<Seq<char>>, base: Seq<Seq<char>>) -> Option<Seq<Seq<char>>> {
    if is_abs(path) != is_abs(base) {
        if is_abs(path) {
            Some(path)
        } else {
            None
        }
    } else {
        let k = common_len(path, base);
        Some(dots((base.len() - k) as nat) + path.skip(k as int))
    }
}

proof fn lemma_common_len(a: Seq<Seq<char>>, b: Seq<Seq<char>>)
    ensures
        common_len(a, b) <= a.len(),
        common_len(a, b) <= b.len(),
        forall|i: int| 0 <= i < common_len(a, b) ==> a[i] == b[i],
        common_len(a, b) < a.len() && common_len(a, b) < b.len() ==> a[common_len(a, b) as int]
            != b[common_len(a, b) as int],
    decreases a.len(),
{
    if !(a.len() == 0 || b.len() == 0 || a[0] != b[0]) {
        lemma_common_len(a.drop_first(), b.drop_first());
        assert forall|i: int| 0 <= i < common_len(a, b) implies a[i] == b[i] by {
            if i > 0 {
                assert(a.drop_first()[i - 1] == b.drop_first()[i - 1]);
            }
        }
    }
}

/// The common length is the first place the paths differ.
proof fn lemma_common_len_is(a: Seq<Seq<char>>, b: Seq<Seq<char>>, k: int)
    requires
        0 <= k <= a.len(),
        k <= b.len(),
        forall|i: int| 0 <= i < k ==> a[i] == b[i],
        !(k < a.len() && k < b.len() && a[k] == b[k]),
    ensures
        common_len(a, b) == k,
    decreases a.len(),
{
    if k > 0 {
        assert(a[0] == b[0]);
        assert forall|i: int| 0 <= i < k - 1 implies a.drop_first()[i] == b.drop_first()[i] by {
            assert(a[i + 1] == b[i + 1]);
        }
        lemma_common_len_is(a.drop_first(), b.drop_first(), k - 1);
    }
}

fn same(a: &String, b: &String) -> (r: bool)
    ensures
        r == (a@ == b@),
{
    crate::env::str_eq(a.as_str(), b.as_str())
}

fn copy_comps(p: &Vec<String>, from: usize, out: &mut Vec<String>)
    requires
        from <= p@.len(),
    ensures
        comps(final(out)@) == comps(old(out)@) + comps(p@).skip(from as int),
{
    let mut i = from;
    while i < p.len()
        invariant
            from <= i <= p@.len(),
            comps(out@) == comps(old(out)@) + comps(p@).subrange(from as int, i as int),
        decreases p.len() - i,
    {
        let ghost before = out@;
        out.push(p[i].clone());
        assert(comps(out@) =~= comps(before).push(p@[i as int]@));
        assert(comps(p@).subrange(from as int, i + 1) =~= comps(p@).subrange(from as int, i as int).push(
            p@[i as int]@,
        ));
        i += 1;
    }
    assert(comps(p@).subrange(from as int, p@.len() as int) =~= comps(p@).skip(from as int));
}

fn is_root(p: &Vec<String>) -> (r: bool)
    ensures
        r == is_abs(comps(p@)),
{
    if p.len() == 0 {
        return false;
    }
    let cs = crate::text::chars_of(p[0].as_str());
    let r = cs.len() == 1 && cs[0] == '/';
    assert(r ==> cs@ =~= seq!['/']);
    r
}

/// The longest common leading part of the first and the last of a sorted
/// list of paths, where they share any.
pub fn find_common_prefix(sorted_paths: &[Vec<String>]) -> (r: Option<Vec<String>>)
    ensures
        sorted_paths@.len() == 0 ==> r is None,
        sorted_paths@.len() > 0 ==> {
            let first = comps(sorted_paths@[0]@);
            let last = comps(sorted_paths@[sorted_paths@.len() - 1]@);
            let k = common_len(first, last);
            match r {
                Some(p) => k > 0 && comps(p@) == first.take(k as int),
                None => k == 0,
            }
        },
{
    if sorted_paths.len() == 0 {
        return None;
    }
    let first = &sorted_paths[0];
    let last = &sorted_paths[sorted_paths.len() - 1];
    let ghost f = comps(first@);
    let ghost l = comps(last@);
    let mut k: usize = 0;
    while k < first.len() && k < last.len() && same(&first[k], &last[k])
        invariant
            f == comps(first@),
            l == comps(last@),
            k <= first@.len(),
            k <= last@.len(),
            forall|i: int| 0 <= i < k ==> f[i] == l[i],
        decreases first.len() - k,
    {
        k += 1;
    }
    proof {
        lemma_common_len_is(f, l, k as int);
    }
    if k == 0 {
        None
    } else {
        let mut out: Vec<String> = Vec::new();
        let mut i: usize = 0;
        while i < k
            invariant
                f == comps(first@),
                k <= first@.len(),
                i <= k,
                comps(out@) == f.take(i as int),
            decreases k - i,
        {
            let ghost before = out@;
            out.push(first[i].clone());
            assert(comps(out@) =~= comps(before).push(first@[i as int]@));
            assert(f.take(i + 1) =~= f.take(i as int).push(f[i as int]));
            i += 1;
        }
        Some(out)
    }
}

/// Computes the path that leads from `base` to `path`, with `..`
/// components where `path` is not below `base`.
pub fn path_relative_from(path: &Vec<String>, base: &Vec<String>) -> (r: Option<Vec<String>>)
    ensures
        match r {
            Some(p) => relative(comps(path@), comps(base@)) == Some(comps(p@)),
            None => relative(comps(path@), comps(base@)) is None,
        },
{
    let ghost pa = comps(path@);
    let ghost ba = comps(base@);
    let pa_abs = is_root(path);
    let ba_abs = is_root(base);
    if pa_abs != ba_abs {
        if pa_abs {
            let mut out: Vec<String> = Vec::new();
            copy_comps(path, 0, &mut out);
            assert(comps(out@) =~= pa);
            return Some(out);
        } else {
            return None;
        }
    }
    let mut k: usize = 0;
    while k < path.len() && k < base.len() && same(&path[k], &base[k])
        invariant
            pa == comps(path@),
            ba == comps(base@),
            k <= path@.len(),
            k <= base@.len(),
            forall|i: int| 0 <= i < k ==> pa[i] == ba[i],
        decreases path.len() - k,
    {
        k += 1;
    }
    proof {
        lemma_common_len_is(pa, ba, k as int);
    }
    let mut out: Vec<String> = Vec::new();
    let mut j: usize = k;
    while j < base.len()
        invariant
            k <= j <= base@.len(),
            comps(out@) == dots((j - k) as nat),
        decreases base.len() - j,
    {
        let ghost before = out@;
        let mut up = String::new();
        up.push('.');
        up.push('.');
        assert(up@ =~= seq!['.', '.']);
        out.push(up);
        assert(comps(out@) =~= comps(before).push(seq!['.', '.']));
        assert(dots((j + 1 - k) as nat) =~= dots((j - k) as nat).push(seq!['.', '.']));
        j += 1;
    }
    copy_comps(path, k, &mut out);
    Some(out)
}

} // verus!
