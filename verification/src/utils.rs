//! Small helpers: the plain styling of terminal text, float rendering and
//! the storage form of paths.
use vstd::prelude::*;

use crate::content::json::float_text;
use crate::text::{chars_of, contains_char, string_from};

verus! {

broadcast use vstd::std_specs::vec::group_vec_axioms;

/// A value to be printed with a style; without colour support every style
/// leaves the value as it is.
pub struct FakeStyledObject<D>(pub D);

impl<D> FakeStyledObject<D> {
    /// Red text.
    pub fn red(self) -> (r: FakeStyledObject<D>)
        ensures
            r.0 == self.0,
    {
        self
    }

    /// Green text.
    pub fn green(self) -> (r: FakeStyledObject<D>)
        ensures
            r.0 == self.0,
    {
        self
    }

    /// Yellow text.
    pub fn yellow(self) -> (r: FakeStyledObject<D>)
        ensures
            r.0 == self.0,
    {
        self
    }

    /// Cyan text.
    pub fn cyan(self) -> (r: FakeStyledObject<D>)
        ensures
            r.0 == self.0,
    {
        self
    }

    /// Bold text.
    pub fn bold(self) -> (r: FakeStyledObject<D>)
        ensures
            r.0 == self.0,
    {
        self
    }

    /// Dim text.
    pub fn dim(self) -> (r: FakeStyledObject<D>)
        ensures
            r.0 == self.0,
    {
        self
    }

    /// Underlined text.
    pub fn underlined(self) -> (r: FakeStyledObject<D>)
        ensures
            r.0 == self.0,
    {
        self
    }

    /// The styled value.
    pub fn into_inner(self) -> (r: D)
        ensures
            r == self.0,
    {
        self.0
    }
}

/// Wraps a value to be printed with a style.
pub fn style<D>(val: D) -> (r: FakeStyledObject<D>)
    ensures
        r.0 == val,
{
    FakeStyledObject(val)
}

/// A float from its decimal rendering, with `.0` added where the rendering
/// has no point, so that it reads back as a float.
pub fn format_float(display: &str) -> (r: String)
    ensures
        r@ == float_text(display@, true),
{
    let mut cs = chars_of(display);
    if !contains_char(cs.as_slice(), '.') {
        cs.push('.');
        cs.push('0');
    }
    assert(cs@ =~= float_text(display@, true));
    string_from(cs.as_slice())
}

/// The storage form of a path: on Windows its backslashes become slashes.
pub open spec fn stored_path(path: Seq<char>, windows: bool) -> Seq<char> {
    if windows {
        path.map_values(|c: char| if c == '\\' { '/' } else { c })
    } else {
        path
    }
}

/// Converts a path into a string that can be persisted; `windows` tells
/// whether paths use backslashes.
pub fn path_to_storage(path: &str, windows: bool) -> (r: String)
    ensures
        r@ == stored_path(path@, windows),
{
    let cs = chars_of(path);
    if !windows {
        return string_from(cs.as_slice());
    }
    let mut out: Vec<char> = Vec::new();
    let mut i: usize = 0;
    while i < cs.len()
        invariant
            cs@ == path@,
            i <= cs@.len(),
            out@ =~= cs@.take(i as int).map_values(|c: char| if c == '\\' { '/' } else { c }),
        decreases cs.len() - i,
    {
        let c = cs[i];
        out.push(if c == '\\' { '/' } else { c });
        i += 1;
    }
    assert(cs@.take(cs@.len() as int) =~= cs@);
    string_from(out.as_slice())
}

} // verus!
