//! Selectors that pick values out of a `Content` tree by path, and the
//! redaction that replaces the values they pick.
//!
//! A selector is a comma-separated list of paths.  A path is `.` alone (the
//! root) or a run of segments: `.key`, `.*` (any one step), `.**` (any
//! number of steps, once per path), `["key"]` (with `\` escaping the next
//! character), `[index]`, `[]` (any index), `[start:end]`, `[:end]` and
//! `[start:]` (indices in a range; negative bounds count from the end).
//! Spaces may stand around the commas.
use vstd::prelude::*;

use crate::content::{Content, ContentV, content_views, entry_views, field_views, str_of, u64_of};
use crate::content::order::{sort_value, sorted_value};
use crate::content::json::{dec_nat, push_dec};
use crate::text::{chars_of, push_all, slice_copy, string_from};

verus! {

broadcast use vstd::std_specs::vec::group_vec_axioms;

// ---------------------------------------------------------------------
// Segments and paths
// ---------------------------------------------------------------------
/// One step of a selector path.
#[derive(Debug, Clone)]
pub enum Segment {
    DeepWildcard,
    Wildcard,
    Key(String),
    Index(u64),
    Range(Option<i64>, Option<i64>),
}

/// The view of a segment.
pub enum SegmentV {
    DeepWildcard,
    Wildcard,
    Key(Seq<char>),
    Index(u64),
    Range(Option<i64>, Option<i64>),
}

impl View for Segment {
    type V = SegmentV;

    open spec fn view(&self) -> SegmentV {
        match self {
            Segment::DeepWildcard => SegmentV::DeepWildcard,
            Segment::Wildcard => SegmentV::Wildcard,
            Segment::Key(k) => SegmentV::Key(k@),
            Segment::Index(i) => SegmentV::Index(*i),
            Segment::Range(a, b) => SegmentV::Range(*a, *b),
        }
    }
}

/// One step of the path to a value in a content tree.
#[derive(Debug)]
pub enum PathItem {
    /// The value under a map key.
    Content(Content),
    /// The value of a struct field, or a map key itself (`$key`).
    Field(String),
    /// The element at an index of a sequence of the given length.
    Index(u64, u64),
}

/// The view of a path item.
pub enum PathItemV {
    Content(ContentV),
    Field(Seq<char>),
    Index(u64, u64),
}

impl View for PathItem {
    type V = PathItemV;

    open spec fn view(&self) -> PathItemV {
        match self {
            PathItem::Content(c) => PathItemV::Content(c@),
            PathItem::Field(f) => PathItemV::Field(f@),
            PathItem::Index(i, n) => PathItemV::Index(*i, *n),
        }
    }
}

/// The views of a path.
pub open spec fn path_view(p: Seq<PathItem>) -> Seq<PathItemV> {
    p.map_values(|x: PathItem| x@)
}

/// The text of one step of a path: the string of a map key (`<content>`
/// where the key is no string), the name of a field, or the index.
pub open spec fn path_item_text(item: PathItemV) -> Seq<char> {
    match item {
        PathItemV::Content(c) => match str_of(c) {
            Some(s) => s,
            None => seq!['<', 'c', 'o', 'n', 't', 'e', 'n', 't', '>'],
        },
        PathItemV::Field(n) => n,
        PathItemV::Index(i, _) => dec_nat(i as nat),
    }
}

/// The text of a path: each step after a `.`.
pub open spec fn path_text(items: Seq<PathItemV>) -> Seq<char>
    decreases items.len(),
{
    if items.len() == 0 {
        Seq::empty()
    } else {
        path_text(items.drop_last()) + seq!['.'] + path_item_text(items.last())
    }
}

/// The path at which a selector matched a value.
pub struct ContentPath<'a>(pub &'a [PathItem]);

impl<'a> ContentPath<'a> {
    /// The path as text, such as `.users.0.name`.
    pub fn to_string(&self) -> (r: String)
        ensures
            r@ == path_text(path_view(self.0@)),
    {
        let items = self.0;
        let mut out: Vec<char> = Vec::new();
        let mut i: usize = 0;
        while i < items.len()
            invariant
                i <= items@.len(),
                items@ == self.0@,
                out@ == path_text(path_view(items@.take(i as int))),
            decreases items.len() - i,
        {
            let ghost before = out@;
            out.push('.');
            match &items[i] {
                PathItem::Content(c) => match c.as_str() {
                    Some(s) => push_all(&mut out, chars_of(s).as_slice()),
                    None => {
                        let marker = ['<', 'c', 'o', 'n', 't', 'e', 'n', 't', '>'];
                        push_all(&mut out, &marker);
                        assert(marker@ =~= seq!['<', 'c', 'o', 'n', 't', 'e', 'n', 't', '>']);
                    },
                },
                PathItem::Field(name) => push_all(&mut out, chars_of(name.as_str()).as_slice()),
                PathItem::Index(idx, _) => push_dec(&mut out, *idx as u128),
            }
            proof {
                let t = path_view(items@.take(i + 1));
                assert(t.drop_last() =~= path_view(items@.take(i as int)));
                assert(t.last() == items@[i as int]@);
                assert(out@ =~= before + seq!['.'] + path_item_text(items@[i as int]@));
            }
            i += 1;
        }
        assert(items@.take(items@.len() as int) =~= items@);
        string_from(out.as_slice())
    }
}

/// A parsed selector: a list of alternative paths.
#[derive(Debug, Clone)]
pub struct Selector {
    selectors: Vec<Vec<Segment>>,
}

impl View for Selector {
    type V = Seq<Seq<SegmentV>>;

    closed spec fn view(&self) -> Seq<Seq<SegmentV>> {
        self.selectors@.map_values(|v: Vec<Segment>| v@.map_values(|s: Segment| s@))
    }
}

// ---------------------------------------------------------------------
// Matching
// ---------------------------------------------------------------------
/// The text of a path item: a string key or a field name.
pub open spec fn item_str(el: PathItemV) -> Option<Seq<char>> {
    match el {
        PathItemV::Content(c) => str_of(c),
        PathItemV::Field(s) => Some(s),
        PathItemV::Index(_, _) => None,
    }
}

/// The number of a path item: an integer key or an index.
pub open spec fn item_u64(el: PathItemV) -> Option<u64> {
    match el {
        PathItemV::Content(c) => u64_of(c),
        PathItemV::Field(_) => None,
        PathItemV::Index(i, _) => Some(i),
    }
}

/// A `u64` read back as an `i64` from its two's complement bits.
pub open spec fn wrap_i64(x: u64) -> int {
    if x <= i64::MAX {
        x as int
    } else {
        x - 0x1_0000_0000_0000_0000int
    }
}

/// A range bound: a negative one counts back from the length, and stops at
/// zero.
pub open spec fn expand_range(sel: int, len: int) -> int {
    if sel < 0 {
        if len + sel > 0 {
            len + sel
        } else {
            0
        }
    } else {
        sel
    }
}

/// Whether a path item is an index within the given range.
pub open spec fn in_range(el: PathItemV, start: Option<i64>, end: Option<i64>) -> bool {
    match el {
        PathItemV::Index(i, n) => {
            let idx = wrap_i64(i);
            let len = wrap_i64(n);
            (match start {
                Some(a) => idx >= expand_range(a as int, len),
                None => true,
            }) && (match end {
                Some(b) => idx < expand_range(b as int, len),
                None => true,
            })
        },
        _ => false,
    }
}

/// Whether one segment matches one path item.
pub open spec fn seg_match(seg: SegmentV, el: PathItemV) -> bool {
    match seg {
        SegmentV::Wildcard => true,
        SegmentV::DeepWildcard => true,
        SegmentV::Key(k) => item_str(el) == Some(k),
        SegmentV::Index(i) => item_u64(el) == Some(i),
        SegmentV::Range(a, b) => in_range(el, a, b),
    }
}

/// Whether `sel[..n]` has no deep wildcard.
pub open spec fn no_deep(sel: Seq<SegmentV>, n: int) -> bool {
    forall|j: int| 0 <= j < n ==> !(#[trigger] sel[j] is DeepWildcard)
}

/// Whether one path of a selector matches a path.  Without a deep
/// wildcard the segments match the items one for one.  With one, the
/// segments before it match the first items, those after it match the last
/// items (as far as the path reaches), and the path is longer than the part
/// before it.
#[verifier::opaque]
pub open spec fn sel_match(sel: Seq<SegmentV>, path: Seq<PathItemV>) -> bool {
    if exists|k: int| 0 <= k < sel.len() && #[trigger] sel[k] is DeepWildcard {
        let idx = choose|k: int|
            0 <= k < sel.len() && #[trigger] sel[k] is DeepWildcard && no_deep(sel, k);
        let back = sel.len() - idx - 1;
        &&& path.len() > idx
        &&& forall|j: int| 0 <= j < idx ==> seg_match(sel[j], #[trigger] path[j])
        &&& forall|j: int|
            0 <= j < back && j < path.len() ==> seg_match(
                sel[sel.len() - 1 - j],
                #[trigger] path[path.len() - 1 - j],
            )
    } else {
        &&& sel.len() == path.len()
        &&& forall|j: int| 0 <= j < sel.len() ==> seg_match(sel[j], #[trigger] path[j])
    }
}

/// Whether any path of the selector matches.
pub open spec fn matches_any(sels: Seq<Seq<SegmentV>>, path: Seq<PathItemV>) -> bool {
    exists|i: int| 0 <= i < sels.len() && sel_match(#[trigger] sels[i], path)
}

/// The first deep wildcard of a selector path, where it has one.
proof fn lemma_first_deep(sel: Seq<SegmentV>, k: int)
    requires
        0 <= k < sel.len(),
        sel[k] is DeepWildcard,
        no_deep(sel, k),
    ensures
        (choose|m: int| 0 <= m < sel.len() && #[trigger] sel[m] is DeepWildcard && no_deep(sel, m))
            == k,
{
    let m = choose|m: int| 0 <= m < sel.len() && #[trigger] sel[m] is DeepWildcard && no_deep(sel, m);
    assert(0 <= m < sel.len() && sel[m] is DeepWildcard && no_deep(sel, m));
    if m < k {
        assert(sel[m] is DeepWildcard);
    } else if m > k {
        assert(!(sel[k] is DeepWildcard));
    }
}

impl PathItem {
    /// The text of this item: a string key or a field name.
    pub fn as_str(&self) -> (r: Option<&str>)
        ensures
            match r {
                Some(s) => item_str(self@) == Some(s@),
                None => item_str(self@) is None,
            },
    {
        match self {
            PathItem::Content(content) => content.as_str(),
            PathItem::Field(s) => Some(s.as_str()),
            PathItem::Index(_, _) => None,
        }
    }

    /// The number of this item: an integer key or an index.
    pub fn as_u64(&self) -> (r: Option<u64>)
        ensures
            r == item_u64(self@),
    {
        match self {
            PathItem::Content(content) => content.as_u64(),
            PathItem::Field(_) => None,
            PathItem::Index(idx, _) => Some(*idx),
        }
    }

    /// Whether this item is an index within the range `start..end`, where
    /// a missing bound is open and a negative one counts from the end.
    pub fn range_check(&self, start: Option<i64>, end: Option<i64>) -> (r: bool)
        ensures
            r == in_range(self@, start, end),
    {
        let (idx, len) = match self {
            PathItem::Index(idx, len) => (to_i64(*idx) as i128, to_i64(*len)),
            _ => return false,
        };
        match (start, end) {
            (None, None) => true,
            (None, Some(end)) => idx < expand(end, len),
            (Some(start), None) => idx >= expand(start, len),
            (Some(start), Some(end)) => idx >= expand(start, len) && idx < expand(end, len),
        }
    }
}

/// A `u64` read back as an `i64` from its two's complement bits.
fn to_i64(x: u64) -> (r: i64)
    ensures
        r == wrap_i64(x),
{
    if x <= i64::MAX as u64 {
        x as i64
    } else {
        -((u64::MAX - x) as i64) - 1
    }
}

fn expand(sel: i64, len: i64) -> (r: i128)
    ensures
        r == expand_range(sel as int, len as int),
{
    let sel = sel as i128;
    let len = len as i128;
    if sel < 0 {
        if len + sel > 0 {
            len + sel
        } else {
            0
        }
    } else {
        sel
    }
}

impl Selector {
    /// Makes the selector own all of its keys.  Keys are owned strings
    /// already, so the selector is returned as it is.
    pub fn make_static(self) -> (r: Selector)
        ensures
            r@ == self@,
    {
        self
    }

    fn segment_is_match(&self, segment: &Segment, element: &PathItem) -> (r: bool)
        ensures
            r == seg_match(segment@, element@),
    {
        match segment {
            Segment::Wildcard => true,
            Segment::DeepWildcard => true,
            Segment::Key(k) => match element.as_str() {
                Some(s) => str_eq(s, k.as_str()),
                None => false,
            },
            Segment::Index(i) => match element.as_u64() {
                Some(n) => n == *i,
                None => false,
            },
            Segment::Range(start, end) => element.range_check(*start, *end),
        }
    }

    fn selector_is_match(&self, selector: &Vec<Segment>, path: &Vec<PathItem>) -> (r: bool)
        ensures
            r == sel_match(selector@.map_values(|s: Segment| s@), path_view(path@)),
    {
        let ghost sel = selector@.map_values(|s: Segment| s@);
        let ghost pv = path_view(path@);
        let mut pos: usize = 0;
        while pos < selector.len() && !is_deep(&selector[pos])
            invariant
                pos <= selector@.len(),
                sel == selector@.map_values(|s: Segment| s@),
                no_deep(sel, pos as int),
            decreases selector.len() - pos,
        {
            pos += 1;
        }
        if pos < selector.len() {
            proof {
                lemma_first_deep(sel, pos as int);
            }
            let idx = pos;
            if path.len() <= idx {
                assert(!sel_match(sel, pv)) by {
                    reveal(sel_match);
                }
                return false;
            }
            let mut j: usize = 0;
            while j < idx
                invariant
                    idx < path@.len(),
                    idx < selector@.len(),
                    sel[idx as int] is DeepWildcard,
                    no_deep(sel, idx as int),
                    j <= idx,
                    sel == selector@.map_values(|s: Segment| s@),
                    pv == path_view(path@),
                    forall|i: int| 0 <= i < j ==> seg_match(sel[i], #[trigger] pv[i]),
                decreases idx - j,
            {
                if !self.segment_is_match(&selector[j], &path[j]) {
                    assert(!sel_match(sel, pv)) by {
                        reveal(sel_match);
                        lemma_first_deep(sel, idx as int);
                        assert(!seg_match(sel[j as int], pv[j as int]));
                    }
                    return false;
                }
                j += 1;
            }
            let back = selector.len() - idx - 1;
            let mut k: usize = 0;
            while k < back && k < path.len()
                invariant
                    idx < selector@.len(),
                    idx < path@.len(),
                    sel[idx as int] is DeepWildcard,
                    no_deep(sel, idx as int),
                    forall|i: int| 0 <= i < idx ==> seg_match(sel[i], #[trigger] pv[i]),
                    back == selector@.len() - idx - 1,
                    k <= back,
                    k <= path@.len(),
                    sel == selector@.map_values(|s: Segment| s@),
                    pv == path_view(path@),
                    forall|i: int|
                        0 <= i < k ==> seg_match(
                            sel[sel.len() - 1 - i],
                            #[trigger] pv[pv.len() - 1 - i],
                        ),
                decreases back - k,
            {
                let si = selector.len() - 1 - k;
                let pi = path.len() - 1 - k;
                if !self.segment_is_match(&selector[si], &path[pi]) {
                    assert(!sel_match(sel, pv)) by {
                        reveal(sel_match);
                        lemma_first_deep(sel, idx as int);
                        assert(!seg_match(sel[sel.len() - 1 - k], pv[pv.len() - 1 - k]));
                    }
                    return false;
                }
                k += 1;
            }
            assert(sel_match(sel, pv)) by {
                reveal(sel_match);
                lemma_first_deep(sel, idx as int);
            }
            true
        } else {
            if selector.len() != path.len() {
                assert(!sel_match(sel, pv)) by {
                    reveal(sel_match);
                }
                return false;
            }
            let mut j: usize = 0;
            while j < selector.len()
                invariant
                    selector@.len() == path@.len(),
                    j <= selector@.len(),
                    sel == selector@.map_values(|s: Segment| s@),
                    pv == path_view(path@),
                    no_deep(sel, sel.len() as int),
                    forall|i: int| 0 <= i < j ==> seg_match(sel[i], #[trigger] pv[i]),
                decreases selector.len() - j,
            {
                if !self.segment_is_match(&selector[j], &path[j]) {
                    assert(!sel_match(sel, pv)) by {
                        reveal(sel_match);
                        assert(!seg_match(sel[j as int], pv[j as int]));
                    }
                    return false;
                }
                j += 1;
            }
            assert(sel_match(sel, pv)) by {
                reveal(sel_match);
            }
            true
        }
    }

    /// Whether any path of this selector matches `path`.
    pub fn is_match(&self, path: &Vec<PathItem>) -> (r: bool)
        ensures
            r == matches_any(self@, path_view(path@)),
    {
        let mut i: usize = 0;
        while i < self.selectors.len()
            invariant
                i <= self.selectors@.len(),
                forall|j: int| 0 <= j < i ==> !sel_match(#[trigger] self@[j], path_view(path@)),
            decreases self.selectors.len() - i,
        {
            if self.selector_is_match(&self.selectors[i], path) {
                assert(sel_match(self@[i as int], path_view(path@)));
                return true;
            }
            i += 1;
        }
        false
    }
}

/// Whether a segment is a deep wildcard.
fn is_deep(seg: &Segment) -> (r: bool)
    ensures
        r == (seg@ is DeepWildcard),
{
    match seg {
        Segment::DeepWildcard => true,
        _ => false,
    }
}

/// Whether two strings are equal.
fn str_eq(a: &str, b: &str) -> (r: bool)
    ensures
        r == (a@ == b@),
{
    let x = crate::text::chars_of(a);
    let y = crate::text::chars_of(b);
    if x.len() != y.len() {
        return false;
    }
    let mut i: usize = 0;
    while i < x.len()
        invariant
            x@ == a@,
            y@ == b@,
            x@.len() == y@.len(),
            i <= x@.len(),
            forall|j: int| 0 <= j < i ==> x@[j] == y@[j],
        decreases x.len() - i,
    {
        if x[i] != y[i] {
            return false;
        }
        i += 1;
    }
    assert(x@ =~= y@);
    true
}

// ---------------------------------------------------------------------
// Redaction
// ---------------------------------------------------------------------
/// What the values that a selector matches are replaced with.
#[derive(Debug, Clone)]
pub enum Redaction {
    /// A fixed value.
    Static(Content),
    /// The matched value itself, with its innermost sequence, map or
    /// struct sorted.
    Sorted,
}

/// The view of a redaction.
pub enum RedactionV {
    Static(ContentV),
    Sorted,
}

impl View for Redaction {
    type V = RedactionV;

    open spec fn view(&self) -> RedactionV {
        match self {
            Redaction::Static(c) => RedactionV::Static(c@),
            Redaction::Sorted => RedactionV::Sorted,
        }
    }
}

/// What a redaction makes of a matched value.
pub open spec fn redacted_value(red: RedactionV, v: ContentV) -> ContentV {
    match red {
        RedactionV::Static(c) => c,
        RedactionV::Sorted => sorted_value(v),
    }
}

impl Redaction {
    /// What this redaction makes of a matched value.
    pub fn redact(&self, value: &Content) -> (r: Content)
        ensures
            r@ == redacted_value(self@, value@),
    {
        match self {
            Redaction::Static(c) => c.clone(),
            Redaction::Sorted => sort_value(value.clone()),
        }
    }
}

/// A redaction that sorts the matched sequence, map or struct.
pub fn sorted_redaction() -> (r: Redaction)
    ensures
        r@ == RedactionV::Sorted,
{
    Redaction::Sorted
}

/// What a redaction makes of a value matched at a path.
pub open spec fn replacement(red: RedactionV) -> spec_fn(ContentV, Seq<PathItemV>) -> ContentV {
    |v: ContentV, p: Seq<PathItemV>| redacted_value(red, v)
}

/// The value `v` at `path` after redacting with `red` every value whose
/// path the selector matches.
pub open spec fn redact_v(
    sels: Seq<Seq<SegmentV>>,
    path: Seq<PathItemV>,
    v: ContentV,
    red: RedactionV,
) -> ContentV {
    redact_with_v(sels, path, v, replacement(red))
}

/// The value `v` at `path` after replacing every value whose path the
/// selector matches by what `g` makes of it and its path.  Maps,
/// sequences, structs and wrappers are walked: a map key is reached under
/// `$key`, the value under a key by the key, an element by its index and
/// the length, a field by its name.  A replaced value is not walked into.
pub open spec fn redact_with_v(
    sels: Seq<Seq<SegmentV>>,
    path: Seq<PathItemV>,
    v: ContentV,
    g: spec_fn(ContentV, Seq<PathItemV>) -> ContentV,
) -> ContentV
    decreases v, 0nat, 0nat,
{
    if matches_any(sels, path) {
        g(v, path)
    } else {
        match v {
            ContentV::Mapping(es) => ContentV::Mapping(redact_entries(sels, path, es, g, es.len())),
            ContentV::Sequence(items) => ContentV::Sequence(
                redact_items(sels, path, items, g, items.len()),
            ),
            ContentV::Tuple(items) => ContentV::Tuple(redact_items(sels, path, items, g, items.len())),
            ContentV::TupleStruct(n, items) => ContentV::TupleStruct(
                n,
                redact_items(sels, path, items, g, items.len()),
            ),
            ContentV::TupleVariant(n, i, var, items) => ContentV::TupleVariant(
                n,
                i,
                var,
                redact_items(sels, path, items, g, items.len()),
            ),
            ContentV::Struct(n, fs) => ContentV::Struct(n, redact_fields(sels, path, fs, g, fs.len())),
            ContentV::StructVariant(n, i, var, fs) => ContentV::StructVariant(
                n,
                i,
                var,
                redact_fields(sels, path, fs, g, fs.len()),
            ),
            ContentV::NewtypeStruct(n, inner) => ContentV::NewtypeStruct(
                n,
                Box::new(redact_with_v(sels, path, *inner, g)),
            ),
            ContentV::NewtypeVariant(n, i, var, inner) => ContentV::NewtypeVariant(
                n,
                i,
                var,
                Box::new(redact_with_v(sels, path, *inner, g)),
            ),
            ContentV::Wrapped(inner) => ContentV::Wrapped(Box::new(redact_with_v(sels, path, *inner, g))),
            _ => v,
        }
    }
}

/// The first `n` elements of a sequence, each redacted under its index.
pub open spec fn redact_items(
    sels: Seq<Seq<SegmentV>>,
    path: Seq<PathItemV>,
    items: Seq<ContentV>,
    g: spec_fn(ContentV, Seq<PathItemV>) -> ContentV,
    n: nat,
) -> Seq<ContentV>
    decreases items, n, 0nat,
{
    if n == 0 || n > items.len() {
        seq![]
    } else {
        redact_items(sels, path, items, g, (n - 1) as nat).push(
            redact_with_v(
                sels,
                path.push(PathItemV::Index((n - 1) as u64, items.len() as u64)),
                items[n - 1],
                g,
            ),
        )
    }
}

/// The first `n` entries of a map, the key redacted under `$key` and the
/// value under the key.
pub open spec fn redact_entries(
    sels: Seq<Seq<SegmentV>>,
    path: Seq<PathItemV>,
    es: Seq<(ContentV, ContentV)>,
    g: spec_fn(ContentV, Seq<PathItemV>) -> ContentV,
    n: nat,
) -> Seq<(ContentV, ContentV)>
    decreases es, n, 0nat,
{
    if n == 0 || n > es.len() {
        seq![]
    } else {
        proof {
            assert(decreases_to!(es => es[n - 1]));
        }
        let e = es[n - 1];
        redact_entries(sels, path, es, g, (n - 1) as nat).push(
            (
                redact_with_v(sels, path.push(PathItemV::Field(seq!['$', 'k', 'e', 'y'])), e.0, g),
                redact_with_v(sels, path.push(PathItemV::Content(e.0)), e.1, g),
            ),
        )
    }
}

/// The first `n` fields of a struct, each redacted under its name.
pub open spec fn redact_fields(
    sels: Seq<Seq<SegmentV>>,
    path: Seq<PathItemV>,
    fs: Seq<(Seq<char>, ContentV)>,
    g: spec_fn(ContentV, Seq<PathItemV>) -> ContentV,
    n: nat,
) -> Seq<(Seq<char>, ContentV)>
    decreases fs, n, 0nat,
{
    if n == 0 || n > fs.len() {
        seq![]
    } else {
        proof {
            assert(decreases_to!(fs => fs[n - 1]));
        }
        let f = fs[n - 1];
        redact_fields(sels, path, fs, g, (n - 1) as nat).push(
            (f.0, redact_with_v(sels, path.push(PathItemV::Field(f.0)), f.1, g)),
        )
    }
}

// ---------------------------------------------------------------------
// Redactions computed by the caller
// ---------------------------------------------------------------------
/// The values the selector matches in `v` at `path`, each with its path,
/// in the order the redaction walk reaches them; a matched value is not
/// walked into.
pub open spec fn matches_in(sels: Seq<Seq<SegmentV>>, path: Seq<PathItemV>, v: ContentV) -> Seq<
    (Seq<PathItemV>, ContentV),
>
    decreases v, 0nat, 0nat,
{
    if matches_any(sels, path) {
        seq![(path, v)]
    } else {
        match v {
            ContentV::Mapping(es) => entries_matches(sels, path, es, es.len()),
            ContentV::Sequence(items) => items_matches(sels, path, items, items.len()),
            ContentV::Tuple(items) => items_matches(sels, path, items, items.len()),
            ContentV::TupleStruct(_, items) => items_matches(sels, path, items, items.len()),
            ContentV::TupleVariant(_, _, _, items) => items_matches(sels, path, items, items.len()),
            ContentV::Struct(_, fs) => fields_matches(sels, path, fs, fs.len()),
            ContentV::StructVariant(_, _, _, fs) => fields_matches(sels, path, fs, fs.len()),
            ContentV::NewtypeStruct(_, inner) => matches_in(sels, path, *inner),
            ContentV::NewtypeVariant(_, _, _, inner) => matches_in(sels, path, *inner),
            ContentV::Wrapped(inner) => matches_in(sels, path, *inner),
            _ => seq![],
        }
    }
}

/// The matches in the first `n` elements of a sequence.
pub open spec fn items_matches(
    sels: Seq<Seq<SegmentV>>,
    path: Seq<PathItemV>,
    items: Seq<ContentV>,
    n: nat,
) -> Seq<(Seq<PathItemV>, ContentV)>
    decreases items, n, 0nat,
{
    if n == 0 || n > items.len() {
        seq![]
    } else {
        items_matches(sels, path, items, (n - 1) as nat) + matches_in(
            sels,
            path.push(PathItemV::Index((n - 1) as u64, items.len() as u64)),
            items[n - 1],
        )
    }
}

/// The matches in the first `n` entries of a map: in each, those in the
/// key, then those in the value.
pub open spec fn entries_matches(
    sels: Seq<Seq<SegmentV>>,
    path: Seq<PathItemV>,
    es: Seq<(ContentV, ContentV)>,
    n: nat,
) -> Seq<(Seq<PathItemV>, ContentV)>
    decreases es, n, 0nat,
{
    if n == 0 || n > es.len() {
        seq![]
    } else {
        proof {
            assert(decreases_to!(es => es[n - 1]));
        }
        let e = es[n - 1];
        entries_matches(sels, path, es, (n - 1) as nat) + matches_in(
            sels,
            path.push(PathItemV::Field(seq!['$', 'k', 'e', 'y'])),
            e.0,
        ) + matches_in(sels, path.push(PathItemV::Content(e.0)), e.1)
    }
}

/// The matches in the first `n` fields of a struct.
pub open spec fn fields_matches(
    sels: Seq<Seq<SegmentV>>,
    path: Seq<PathItemV>,
    fs: Seq<(Seq<char>, ContentV)>,
    n: nat,
) -> Seq<(Seq<PathItemV>, ContentV)>
    decreases fs, n, 0nat,
{
    if n == 0 || n > fs.len() {
        seq![]
    } else {
        proof {
            assert(decreases_to!(fs => fs[n - 1]));
        }
        let f = fs[n - 1];
        fields_matches(sels, path, fs, (n - 1) as nat) + matches_in(
            sels,
            path.push(PathItemV::Field(f.0)),
            f.1,
        )
    }
}

/// `v` at `path` with the values the selector matches replaced, in the
/// order the walk reaches them, by the values of `outs`.
pub open spec fn replace_in(
    sels: Seq<Seq<SegmentV>>,
    path: Seq<PathItemV>,
    v: ContentV,
    outs: Seq<ContentV>,
) -> ContentV
    decreases v, 0nat, 0nat,
{
    if matches_any(sels, path) {
        outs[0]
    } else {
        match v {
            ContentV::Mapping(es) => ContentV::Mapping(entries_replace(sels, path, es, outs, es.len())),
            ContentV::Sequence(items) => ContentV::Sequence(
                items_replace(sels, path, items, outs, items.len()),
            ),
            ContentV::Tuple(items) => ContentV::Tuple(
                items_replace(sels, path, items, outs, items.len()),
            ),
            ContentV::TupleStruct(n, items) => ContentV::TupleStruct(
                n,
                items_replace(sels, path, items, outs, items.len()),
            ),
            ContentV::TupleVariant(n, i, var, items) => ContentV::TupleVariant(
                n,
                i,
                var,
                items_replace(sels, path, items, outs, items.len()),
            ),
            ContentV::Struct(n, fs) => ContentV::Struct(
                n,
                fields_replace(sels, path, fs, outs, fs.len()),
            ),
            ContentV::StructVariant(n, i, var, fs) => ContentV::StructVariant(
                n,
                i,
                var,
                fields_replace(sels, path, fs, outs, fs.len()),
            ),
            ContentV::NewtypeStruct(n, inner) => ContentV::NewtypeStruct(
                n,
                Box::new(replace_in(sels, path, *inner, outs)),
            ),
            ContentV::NewtypeVariant(n, i, var, inner) => ContentV::NewtypeVariant(
                n,
                i,
                var,
                Box::new(replace_in(sels, path, *inner, outs)),
            ),
            ContentV::Wrapped(inner) => ContentV::Wrapped(Box::new(replace_in(sels, path, *inner, outs))),
            _ => v,
        }
    }
}

/// The first `n` elements of a sequence with their matches replaced; each
/// element takes the values after those its predecessors took.
pub open spec fn items_replace(
    sels: Seq<Seq<SegmentV>>,
    path: Seq<PathItemV>,
    items: Seq<ContentV>,
    outs: Seq<ContentV>,
    n: nat,
) -> Seq<ContentV>
    decreases items, n, 0nat,
{
    if n == 0 || n > items.len() {
        seq![]
    } else {
        let k = items_matches(sels, path, items, (n - 1) as nat).len() as int;
        items_replace(sels, path, items, outs, (n - 1) as nat).push(
            replace_in(
                sels,
                path.push(PathItemV::Index((n - 1) as u64, items.len() as u64)),
                items[n - 1],
                outs.skip(k),
            ),
        )
    }
}

/// The first `n` entries of a map with their matches replaced, the key's
/// before the value's.
pub open spec fn entries_replace(
    sels: Seq<Seq<SegmentV>>,
    path: Seq<PathItemV>,
    es: Seq<(ContentV, ContentV)>,
    outs: Seq<ContentV>,
    n: nat,
) -> Seq<(ContentV, ContentV)>
    decreases es, n, 0nat,
{
    if n == 0 || n > es.len() {
        seq![]
    } else {
        proof {
            assert(decreases_to!(es => es[n - 1]));
        }
        let e = es[n - 1];
        let kp = path.push(PathItemV::Field(seq!['$', 'k', 'e', 'y']));
        let k = entries_matches(sels, path, es, (n - 1) as nat).len() as int;
        let m = matches_in(sels, kp, e.0).len() as int;
        entries_replace(sels, path, es, outs, (n - 1) as nat).push(
            (
                replace_in(sels, kp, e.0, outs.skip(k)),
                replace_in(sels, path.push(PathItemV::Content(e.0)), e.1, outs.skip(k + m)),
            ),
        )
    }
}

/// The first `n` fields of a struct with their matches replaced.
pub open spec fn fields_replace(
    sels: Seq<Seq<SegmentV>>,
    path: Seq<PathItemV>,
    fs: Seq<(Seq<char>, ContentV)>,
    outs: Seq<ContentV>,
    n: nat,
) -> Seq<(Seq<char>, ContentV)>
    decreases fs, n, 0nat,
{
    if n == 0 || n > fs.len() {
        seq![]
    } else {
        proof {
            assert(decreases_to!(fs => fs[n - 1]));
        }
        let f = fs[n - 1];
        let k = fields_matches(sels, path, fs, (n - 1) as nat).len() as int;
        fields_replace(sels, path, fs, outs, (n - 1) as nat).push(
            (f.0, replace_in(sels, path.push(PathItemV::Field(f.0)), f.1, outs.skip(k))),
        )
    }
}

/// Whether `outs` starts with what `g` makes of each match.
pub open spec fn replaces_matches(
    ms: Seq<(Seq<PathItemV>, ContentV)>,
    outs: Seq<ContentV>,
    g: spec_fn(ContentV, Seq<PathItemV>) -> ContentV,
) -> bool {
    &&& ms.len() <= outs.len()
    &&& forall|i: int| 0 <= i < ms.len() ==> #[trigger] outs[i] == g(ms[i].1, ms[i].0)
}

/// A prefix of the matches is replaced by a prefix of the values; the
/// values after them replace the matches after them.
proof fn lemma_replaces_split(
    a: Seq<(Seq<PathItemV>, ContentV)>,
    b: Seq<(Seq<PathItemV>, ContentV)>,
    outs: Seq<ContentV>,
    g: spec_fn(ContentV, Seq<PathItemV>) -> ContentV,
)
    requires
        replaces_matches(a + b, outs, g),
    ensures
        replaces_matches(a, outs, g),
        replaces_matches(b, outs.skip(a.len() as int), g),
{
    assert forall|i: int| 0 <= i < a.len() implies #[trigger] outs[i] == g(a[i].1, a[i].0) by {
        assert((a + b)[i] == a[i]);
    }
    assert forall|i: int| 0 <= i < b.len() implies #[trigger] outs.skip(a.len() as int)[i] == g(
        b[i].1,
        b[i].0,
    ) by {
        assert((a + b)[a.len() + i] == b[i]);
        assert(outs.skip(a.len() as int)[i] == outs[a.len() + i]);
    }
}

/// Replacing the matches by what a function makes of them and their paths
/// is redacting with that function: collecting the matches, computing
/// their replacements and putting those back gives what the redaction
/// walk gives.
pub proof fn lemma_replacing_matches_redacts(
    sels: Seq<Seq<SegmentV>>,
    path: Seq<PathItemV>,
    v: ContentV,
    g: spec_fn(ContentV, Seq<PathItemV>) -> ContentV,
    outs: Seq<ContentV>,
)
    requires
        replaces_matches(matches_in(sels, path, v), outs, g),
    ensures
        replace_in(sels, path, v, outs) == redact_with_v(sels, path, v, g),
    decreases v, 0nat, 0nat,
{
    if matches_any(sels, path) {
        assert(matches_in(sels, path, v)[0] == (path, v));
    } else {
        match v {
            ContentV::Mapping(es) => lemma_entries_replace(sels, path, es, g, outs, es.len()),
            ContentV::Sequence(items) => lemma_items_replace(sels, path, items, g, outs, items.len()),
            ContentV::Tuple(items) => lemma_items_replace(sels, path, items, g, outs, items.len()),
            ContentV::TupleStruct(_, items) => lemma_items_replace(
                sels,
                path,
                items,
                g,
                outs,
                items.len(),
            ),
            ContentV::TupleVariant(_, _, _, items) => lemma_items_replace(
                sels,
                path,
                items,
                g,
                outs,
                items.len(),
            ),
            ContentV::Struct(_, fs) => lemma_fields_replace(sels, path, fs, g, outs, fs.len()),
            ContentV::StructVariant(_, _, _, fs) => lemma_fields_replace(
                sels,
                path,
                fs,
                g,
                outs,
                fs.len(),
            ),
            ContentV::NewtypeStruct(_, inner) => lemma_replacing_matches_redacts(
                sels,
                path,
                *inner,
                g,
                outs,
            ),
            ContentV::NewtypeVariant(_, _, _, inner) => lemma_replacing_matches_redacts(
                sels,
                path,
                *inner,
                g,
                outs,
            ),
            ContentV::Wrapped(inner) => lemma_replacing_matches_redacts(sels, path, *inner, g, outs),
            _ => {},
        }
    }
}

proof fn lemma_items_replace(
    sels: Seq<Seq<SegmentV>>,
    path: Seq<PathItemV>,
    items: Seq<ContentV>,
    g: spec_fn(ContentV, Seq<PathItemV>) -> ContentV,
    outs: Seq<ContentV>,
    n: nat,
)
    requires
        replaces_matches(items_matches(sels, path, items, n), outs, g),
    ensures
        items_replace(sels, path, items, outs, n) == redact_items(sels, path, items, g, n),
    decreases items, n, 0nat,
{
    if n > 0 && n <= items.len() {
        let a = items_matches(sels, path, items, (n - 1) as nat);
        let cp = path.push(PathItemV::Index((n - 1) as u64, items.len() as u64));
        let b = matches_in(sels, cp, items[n - 1]);
        lemma_replaces_split(a, b, outs, g);
        lemma_items_replace(sels, path, items, g, outs, (n - 1) as nat);
        lemma_replacing_matches_redacts(sels, cp, items[n - 1], g, outs.skip(a.len() as int));
    }
}

proof fn lemma_entries_replace(
    sels: Seq<Seq<SegmentV>>,
    path: Seq<PathItemV>,
    es: Seq<(ContentV, ContentV)>,
    g: spec_fn(ContentV, Seq<PathItemV>) -> ContentV,
    outs: Seq<ContentV>,
    n: nat,
)
    requires
        replaces_matches(entries_matches(sels, path, es, n), outs, g),
    ensures
        entries_replace(sels, path, es, outs, n) == redact_entries(sels, path, es, g, n),
    decreases es, n, 0nat,
{
    if n > 0 && n <= es.len() {
        assert(decreases_to!(es => es[n - 1]));
        let e = es[n - 1];
        let a = entries_matches(sels, path, es, (n - 1) as nat);
        let kp = path.push(PathItemV::Field(seq!['$', 'k', 'e', 'y']));
        let vp = path.push(PathItemV::Content(e.0));
        let b = matches_in(sels, kp, e.0);
        let c = matches_in(sels, vp, e.1);
        lemma_replaces_split(a + b, c, outs, g);
        lemma_replaces_split(a, b, outs, g);
        lemma_entries_replace(sels, path, es, g, outs, (n - 1) as nat);
        lemma_replacing_matches_redacts(sels, kp, e.0, g, outs.skip(a.len() as int));
        assert((a + b).len() == a.len() + b.len());
        lemma_replacing_matches_redacts(sels, vp, e.1, g, outs.skip((a.len() + b.len()) as int));
    }
}

proof fn lemma_fields_replace(
    sels: Seq<Seq<SegmentV>>,
    path: Seq<PathItemV>,
    fs: Seq<(Seq<char>, ContentV)>,
    g: spec_fn(ContentV, Seq<PathItemV>) -> ContentV,
    outs: Seq<ContentV>,
    n: nat,
)
    requires
        replaces_matches(fields_matches(sels, path, fs, n), outs, g),
    ensures
        fields_replace(sels, path, fs, outs, n) == redact_fields(sels, path, fs, g, n),
    decreases fs, n, 0nat,
{
    if n > 0 && n <= fs.len() {
        assert(decreases_to!(fs => fs[n - 1]));
        let f = fs[n - 1];
        let a = fields_matches(sels, path, fs, (n - 1) as nat);
        let cp = path.push(PathItemV::Field(f.0));
        let b = matches_in(sels, cp, f.1);
        lemma_replaces_split(a, b, outs, g);
        lemma_fields_replace(sels, path, fs, g, outs, (n - 1) as nat);
        lemma_replacing_matches_redacts(sels, cp, f.1, g, outs.skip(a.len() as int));
    }
}

/// The name under which a map key itself is reached.
fn key_marker() -> (r: String)
    ensures
        r@ == seq!['$', 'k', 'e', 'y'],
{
    let mut k = String::new();
    k.push('$');
    k.push('k');
    k.push('e');
    k.push('y');
    assert(k@ =~= seq!['$', 'k', 'e', 'y']);
    k
}

proof fn lemma_path_push(p: Seq<PathItem>, x: PathItem)
    ensures
        path_view(p.push(x)) == path_view(p).push(x@),
{
    assert(path_view(p.push(x)) =~= path_view(p).push(x@));
}

impl Selector {
    /// Replaces every value in `value` whose path this selector matches
    /// with `redaction`.
    pub fn redact(&self, value: Content, redaction: &Redaction) -> (r: Content)
        ensures
            r@ == redact_v(self@, seq![], value@, redaction@),
    {
        let mut path: Vec<PathItem> = Vec::new();
        assert(path_view(path@) =~= seq![]);
        self.redact_impl(&value, redaction, &mut path)
    }

    fn redact_seq(&self, seq: &Vec<Content>, redaction: &Redaction, path: &mut Vec<PathItem>) -> (r:
        Vec<Content>)
        ensures
            content_views(r@) == redact_items(
                self@,
                path_view(old(path)@),
                content_views(seq@),
                replacement(redaction@),
                seq@.len(),
            ),
            final(path)@ == old(path)@,
        decreases seq, 1nat,
    {
        let ghost iv = content_views(seq@);
        let ghost pv = path_view(path@);
        proof {
            crate::content::lemma_content_views(seq@);
        }
        let len = seq.len();
        let mut out: Vec<Content> = Vec::new();
        let mut idx: usize = 0;
        while idx < len
            invariant
                len == seq@.len(),
                idx <= len,
                iv == content_views(seq@),
                iv.len() == seq@.len(),
                forall|i: int| 0 <= i < seq@.len() ==> #[trigger] iv[i] == seq@[i]@,
                pv == path_view(path@),
                path@ == old(path)@,
                out@.len() == idx,
                content_views(out@) == redact_items(self@, pv, iv, replacement(redaction@), idx as nat),
            decreases len - idx,
        {
            proof {
                lemma_path_push(path@, PathItem::Index(idx as u64, len as u64));
                assert(decreases_to!(seq => seq@[idx as int]));
            }
            path.push(PathItem::Index(idx as u64, len as u64));
            let nv = self.redact_impl(&seq[idx], redaction, path);
            let _ = path.pop();
            proof {
                crate::content::lemma_content_views(out@);
            }
            let ghost before = out@;
            out.push(nv);
            proof {
                crate::content::lemma_content_views(out@);
                assert(content_views(out@) =~= content_views(before).push(nv@));
            }
            idx += 1;
        }
        out
    }

    fn redact_map(
        &self,
        map: &Vec<(Content, Content)>,
        redaction: &Redaction,
        path: &mut Vec<PathItem>,
    ) -> (r: Vec<(Content, Content)>)
        ensures
            entry_views(r@) == redact_entries(
                self@,
                path_view(old(path)@),
                entry_views(map@),
                replacement(redaction@),
                map@.len(),
            ),
            final(path)@ == old(path)@,
        decreases map, 1nat,
    {
        let ghost ev = entry_views(map@);
        let ghost pv = path_view(path@);
        proof {
            crate::content::lemma_entry_views(map@);
        }
        let mut out: Vec<(Content, Content)> = Vec::new();
        let mut idx: usize = 0;
        while idx < map.len()
            invariant
                idx <= map@.len(),
                ev == entry_views(map@),
                ev.len() == map@.len(),
                forall|i: int|
                    0 <= i < map@.len() ==> #[trigger] ev[i] == (map@[i].0@, map@[i].1@),
                pv == path_view(path@),
                path@ == old(path)@,
                out@.len() == idx,
                entry_views(out@) == redact_entries(self@, pv, ev, replacement(redaction@), idx as nat),
            decreases map.len() - idx,
        {
            let entry = &map[idx];
            proof {
                assert(ev[idx as int] == (map@[idx as int].0@, map@[idx as int].1@));
                assert(decreases_to!(map => map@[idx as int]));
                assert(decreases_to!(map@[idx as int] => map@[idx as int].0));
                assert(decreases_to!(map@[idx as int] => map@[idx as int].1));
            }
            let key_item = PathItem::Field(key_marker());
            proof {
                lemma_path_push(path@, key_item);
            }
            let ghost p0 = path@;
            path.push(key_item);
            let new_key = self.redact_impl(&entry.0, redaction, path);
            let _ = path.pop();
            assert(path@ =~= p0);
            assert(new_key@ == redact_with_v(
                self@,
                pv.push(PathItemV::Field(seq!['$', 'k', 'e', 'y'])),
                ev[idx as int].0,
                replacement(redaction@),
            ));
            let ci = PathItem::Content(entry.0.clone());
            proof {
                lemma_path_push(path@, ci);
            }
            path.push(ci);
            let new_value = self.redact_impl(&entry.1, redaction, path);
            let _ = path.pop();
            assert(path@ =~= p0);
            assert(new_value@ == redact_with_v(
                self@,
                pv.push(PathItemV::Content(ev[idx as int].0)),
                ev[idx as int].1,
                replacement(redaction@),
            ));
            proof {
                crate::content::lemma_entry_views(out@);
            }
            let ghost before = out@;
            out.push((new_key, new_value));
            proof {
                crate::content::lemma_entry_views(out@);
                assert(entry_views(out@) =~= entry_views(before).push((new_key@, new_value@)));
            }
            idx += 1;
        }
        out
    }

    fn redact_struct(
        &self,
        fields: &Vec<(String, Content)>,
        redaction: &Redaction,
        path: &mut Vec<PathItem>,
    ) -> (r: Vec<(String, Content)>)
        ensures
            field_views(r@) == redact_fields(
                self@,
                path_view(old(path)@),
                field_views(fields@),
                replacement(redaction@),
                fields@.len(),
            ),
            final(path)@ == old(path)@,
        decreases fields, 1nat,
    {
        let ghost fv = field_views(fields@);
        let ghost pv = path_view(path@);
        proof {
            crate::content::lemma_field_views(fields@);
        }
        let mut out: Vec<(String, Content)> = Vec::new();
        let mut idx: usize = 0;
        while idx < fields.len()
            invariant
                idx <= fields@.len(),
                fv == field_views(fields@),
                fv.len() == fields@.len(),
                forall|i: int|
                    0 <= i < fields@.len() ==> #[trigger] fv[i] == (fields@[i].0@, fields@[i].1@),
                pv == path_view(path@),
                path@ == old(path)@,
                out@.len() == idx,
                field_views(out@) == redact_fields(self@, pv, fv, replacement(redaction@), idx as nat),
            decreases fields.len() - idx,
        {
            let field = &fields[idx];
            proof {
                assert(fv[idx as int] == (fields@[idx as int].0@, fields@[idx as int].1@));
                assert(decreases_to!(fields => fields@[idx as int]));
                assert(decreases_to!(fields@[idx as int] => fields@[idx as int].1));
            }
            let item = PathItem::Field(field.0.clone());
            proof {
                lemma_path_push(path@, item);
            }
            path.push(item);
            let nv = self.redact_impl(&field.1, redaction, path);
            let _ = path.pop();
            proof {
                crate::content::lemma_field_views(out@);
            }
            let ghost before = out@;
            out.push((field.0.clone(), nv));
            proof {
                crate::content::lemma_field_views(out@);
                assert(field_views(out@) =~= field_views(before).push((fields@[idx as int].0@, nv@)));
            }
            idx += 1;
        }
        out
    }

    fn redact_impl(&self, value: &Content, redaction: &Redaction, path: &mut Vec<PathItem>) -> (r:
        Content)
        ensures
            r@ == redact_with_v(self@, path_view(old(path)@), value@, replacement(redaction@)),
            final(path)@ == old(path)@,
        decreases value, 2nat,
    {
        if self.is_match(path) {
            return redaction.redact(value);
        }
        match value {
            Content::Sequence(items) | Content::Tuple(items) | Content::TupleStruct(_, items)
            | Content::TupleVariant(_, _, _, items) => {
                proof {
                    crate::content::lemma_content_views(items@);
                }
            },
            Content::Mapping(map) => {
                proof {
                    crate::content::lemma_entry_views(map@);
                }
            },
            Content::Struct(_, fields) | Content::StructVariant(_, _, _, fields) => {
                proof {
                    crate::content::lemma_field_views(fields@);
                }
            },
            _ => {},
        }
        match value {
            Content::Mapping(map) => Content::Mapping(self.redact_map(map, redaction, path)),
            Content::Sequence(seq) => Content::Sequence(self.redact_seq(seq, redaction, path)),
            Content::Tuple(seq) => Content::Tuple(self.redact_seq(seq, redaction, path)),
            Content::TupleStruct(name, seq) => Content::TupleStruct(
                name.clone(),
                self.redact_seq(seq, redaction, path),
            ),
            Content::TupleVariant(name, variant_index, variant, seq) => Content::TupleVariant(
                name.clone(),
                *variant_index,
                variant.clone(),
                self.redact_seq(seq, redaction, path),
            ),
            Content::Struct(name, fields) => Content::Struct(
                name.clone(),
                self.redact_struct(fields, redaction, path),
            ),
            Content::StructVariant(name, variant_index, variant, fields) => Content::StructVariant(
                name.clone(),
                *variant_index,
                variant.clone(),
                self.redact_struct(fields, redaction, path),
            ),
            Content::NewtypeStruct(name, inner) => Content::NewtypeStruct(
                name.clone(),
                Box::new(self.redact_impl(inner, redaction, path)),
            ),
            Content::NewtypeVariant(name, index, variant_name, inner) => Content::NewtypeVariant(
                name.clone(),
                *index,
                variant_name.clone(),
                Box::new(self.redact_impl(inner, redaction, path)),
            ),
            Content::Wrapped(contents) => Content::Wrapped(
                Box::new(self.redact_impl(contents, redaction, path)),
            ),
            other => other.clone(),
        }
    }
}

/// The views of matches: each path and value by its view.
pub open spec fn match_views(s: Seq<(Vec<PathItem>, Content)>) -> Seq<(Seq<PathItemV>, ContentV)> {
    Seq::new(s.len(), |i: int| (path_view(s[i].0@), s[i].1@))
}

/// Adding a match adds its view.
proof fn lemma_match_views_push(s: Seq<(Vec<PathItem>, Content)>, m: (Vec<PathItem>, Content))
    ensures
        match_views(s.push(m)) == match_views(s).push((path_view(m.0@), m.1@)),
{
    assert(match_views(s.push(m)) =~= match_views(s).push((path_view(m.0@), m.1@)));
}

/// The matches in a prefix of the elements are no more than in all.
proof fn lemma_items_matches_prefix(
    sels: Seq<Seq<SegmentV>>,
    path: Seq<PathItemV>,
    items: Seq<ContentV>,
    i: nat,
    n: nat,
)
    requires
        i <= n <= items.len(),
    ensures
        items_matches(sels, path, items, i).len() <= items_matches(sels, path, items, n).len(),
    decreases n,
{
    if i < n {
        lemma_items_matches_prefix(sels, path, items, i, (n - 1) as nat);
    }
}

proof fn lemma_entries_matches_prefix(
    sels: Seq<Seq<SegmentV>>,
    path: Seq<PathItemV>,
    es: Seq<(ContentV, ContentV)>,
    i: nat,
    n: nat,
)
    requires
        i <= n <= es.len(),
    ensures
        entries_matches(sels, path, es, i).len() <= entries_matches(sels, path, es, n).len(),
    decreases n,
{
    if i < n {
        lemma_entries_matches_prefix(sels, path, es, i, (n - 1) as nat);
    }
}

proof fn lemma_fields_matches_prefix(
    sels: Seq<Seq<SegmentV>>,
    path: Seq<PathItemV>,
    fs: Seq<(Seq<char>, ContentV)>,
    i: nat,
    n: nat,
)
    requires
        i <= n <= fs.len(),
    ensures
        fields_matches(sels, path, fs, i).len() <= fields_matches(sels, path, fs, n).len(),
    decreases n,
{
    if i < n {
        lemma_fields_matches_prefix(sels, path, fs, i, (n - 1) as nat);
    }
}

/// A copy of a path item.
fn copy_item(x: &PathItem) -> (r: PathItem)
    ensures
        r@ == x@,
{
    match x {
        PathItem::Content(c) => PathItem::Content(c.clone()),
        PathItem::Field(f) => PathItem::Field(f.clone()),
        PathItem::Index(i, n) => PathItem::Index(*i, *n),
    }
}

/// A copy of a path.
fn copy_path(p: &Vec<PathItem>) -> (r: Vec<PathItem>)
    ensures
        path_view(r@) == path_view(p@),
{
    let mut out: Vec<PathItem> = Vec::new();
    let mut i: usize = 0;
    while i < p.len()
        invariant
            i <= p@.len(),
            path_view(out@) == path_view(p@.take(i as int)),
        decreases p.len() - i,
    {
        let item = copy_item(&p[i]);
        proof {
            lemma_path_push(out@, item);
            assert(p@.take(i + 1) =~= p@.take(i as int).push(p@[i as int]));
            lemma_path_push(p@.take(i as int), p@[i as int]);
        }
        out.push(item);
        i += 1;
    }
    assert(p@.take(p@.len() as int) =~= p@);
    out
}

impl Selector {
    /// The values this selector matches in `value`, each with its path, in
    /// the order the redaction walk reaches them: a redaction whose
    /// replacements the caller computes replaces exactly these.
    pub fn matches(&self, value: &Content) -> (r: Vec<(Vec<PathItem>, Content)>)
        ensures
            match_views(r@) == matches_in(self@, seq![], value@),
    {
        let mut path: Vec<PathItem> = Vec::new();
        let mut out: Vec<(Vec<PathItem>, Content)> = Vec::new();
        assert(path_view(path@) =~= seq![]);
        assert(match_views(out@) =~= seq![]);
        self.collect_impl(value, &mut path, &mut out);
        assert(match_views(out@) =~= matches_in(self@, seq![], value@));
        out
    }

    fn collect_impl(
        &self,
        value: &Content,
        path: &mut Vec<PathItem>,
        out: &mut Vec<(Vec<PathItem>, Content)>,
    )
        ensures
            match_views(final(out)@) == match_views(old(out)@) + matches_in(
                self@,
                path_view(old(path)@),
                value@,
            ),
            final(path)@ == old(path)@,
        decreases value, 2nat,
    {
        if self.is_match(path) {
            let p = copy_path(path);
            let ghost before = out@;
            out.push((p, value.clone()));
            proof {
                lemma_match_views_push(before, (p, *value));
                assert(match_views(out@) =~= match_views(before) + matches_in(
                    self@,
                    path_view(path@),
                    value@,
                ));
            }
            return;
        }
        match value {
            Content::Sequence(items) | Content::Tuple(items) | Content::TupleStruct(_, items)
            | Content::TupleVariant(_, _, _, items) => {
                proof {
                    crate::content::lemma_content_views(items@);
                }
                self.collect_seq(items, path, out);
            },
            Content::Mapping(map) => {
                proof {
                    crate::content::lemma_entry_views(map@);
                }
                self.collect_map(map, path, out);
            },
            Content::Struct(_, fields) | Content::StructVariant(_, _, _, fields) => {
                proof {
                    crate::content::lemma_field_views(fields@);
                }
                self.collect_struct(fields, path, out);
            },
            Content::NewtypeStruct(_, inner) | Content::NewtypeVariant(_, _, _, inner)
            | Content::Wrapped(inner) => {
                self.collect_impl(inner, path, out);
            },
            _ => {
                assert(match_views(out@) =~= match_views(old(out)@) + seq![]);
            },
        }
    }

    fn collect_seq(
        &self,
        seq: &Vec<Content>,
        path: &mut Vec<PathItem>,
        out: &mut Vec<(Vec<PathItem>, Content)>,
    )
        ensures
            match_views(final(out)@) == match_views(old(out)@) + items_matches(
                self@,
                path_view(old(path)@),
                content_views(seq@),
                seq@.len(),
            ),
            final(path)@ == old(path)@,
        decreases seq, 1nat,
    {
        let ghost iv = content_views(seq@);
        let ghost pv = path_view(path@);
        let ghost start = match_views(out@);
        proof {
            crate::content::lemma_content_views(seq@);
        }
        let len = seq.len();
        let mut idx: usize = 0;
        assert(start =~= start + seq![]);
        while idx < len
            invariant
                len == seq@.len(),
                idx <= len,
                iv == content_views(seq@),
                iv.len() == seq@.len(),
                forall|i: int| 0 <= i < seq@.len() ==> #[trigger] iv[i] == seq@[i]@,
                pv == path_view(path@),
                path@ == old(path)@,
                match_views(out@) == start + items_matches(self@, pv, iv, idx as nat),
            decreases len - idx,
        {
            proof {
                lemma_path_push(path@, PathItem::Index(idx as u64, len as u64));
                assert(decreases_to!(seq => seq@[idx as int]));
            }
            path.push(PathItem::Index(idx as u64, len as u64));
            self.collect_impl(&seq[idx], path, out);
            let _ = path.pop();
            assert(match_views(out@) =~= start + items_matches(self@, pv, iv, (idx + 1) as nat));
            idx += 1;
        }
    }

    fn collect_map(
        &self,
        map: &Vec<(Content, Content)>,
        path: &mut Vec<PathItem>,
        out: &mut Vec<(Vec<PathItem>, Content)>,
    )
        ensures
            match_views(final(out)@) == match_views(old(out)@) + entries_matches(
                self@,
                path_view(old(path)@),
                entry_views(map@),
                map@.len(),
            ),
            final(path)@ == old(path)@,
        decreases map, 1nat,
    {
        let ghost ev = entry_views(map@);
        let ghost pv = path_view(path@);
        let ghost start = match_views(out@);
        proof {
            crate::content::lemma_entry_views(map@);
        }
        let mut idx: usize = 0;
        assert(start =~= start + seq![]);
        while idx < map.len()
            invariant
                idx <= map@.len(),
                ev == entry_views(map@),
                ev.len() == map@.len(),
                forall|i: int|
                    0 <= i < map@.len() ==> #[trigger] ev[i] == (map@[i].0@, map@[i].1@),
                pv == path_view(path@),
                path@ == old(path)@,
                match_views(out@) == start + entries_matches(self@, pv, ev, idx as nat),
            decreases map.len() - idx,
        {
            let entry = &map[idx];
            proof {
                assert(ev[idx as int] == (map@[idx as int].0@, map@[idx as int].1@));
                assert(decreases_to!(map => map@[idx as int]));
                assert(decreases_to!(map@[idx as int] => map@[idx as int].0));
                assert(decreases_to!(map@[idx as int] => map@[idx as int].1));
            }
            let key_item = PathItem::Field(key_marker());
            proof {
                lemma_path_push(path@, key_item);
            }
            let ghost p0 = path@;
            path.push(key_item);
            self.collect_impl(&entry.0, path, out);
            let _ = path.pop();
            assert(path@ =~= p0);
            let ci = PathItem::Content(entry.0.clone());
            proof {
                lemma_path_push(path@, ci);
            }
            path.push(ci);
            self.collect_impl(&entry.1, path, out);
            let _ = path.pop();
            assert(path@ =~= p0);
            assert(match_views(out@) =~= start + entries_matches(self@, pv, ev, (idx + 1) as nat));
            idx += 1;
        }
    }

    fn collect_struct(
        &self,
        fields: &Vec<(String, Content)>,
        path: &mut Vec<PathItem>,
        out: &mut Vec<(Vec<PathItem>, Content)>,
    )
        ensures
            match_views(final(out)@) == match_views(old(out)@) + fields_matches(
                self@,
                path_view(old(path)@),
                field_views(fields@),
                fields@.len(),
            ),
            final(path)@ == old(path)@,
        decreases fields, 1nat,
    {
        let ghost fv = field_views(fields@);
        let ghost pv = path_view(path@);
        let ghost start = match_views(out@);
        proof {
            crate::content::lemma_field_views(fields@);
        }
        let mut idx: usize = 0;
        assert(start =~= start + seq![]);
        while idx < fields.len()
            invariant
                idx <= fields@.len(),
                fv == field_views(fields@),
                fv.len() == fields@.len(),
                forall|i: int|
                    0 <= i < fields@.len() ==> #[trigger] fv[i] == (fields@[i].0@, fields@[i].1@),
                pv == path_view(path@),
                path@ == old(path)@,
                match_views(out@) == start + fields_matches(self@, pv, fv, idx as nat),
            decreases fields.len() - idx,
        {
            let field = &fields[idx];
            proof {
                assert(fv[idx as int] == (fields@[idx as int].0@, fields@[idx as int].1@));
                assert(decreases_to!(fields => fields@[idx as int]));
                assert(decreases_to!(fields@[idx as int] => fields@[idx as int].1));
            }
            let item = PathItem::Field(field.0.clone());
            proof {
                lemma_path_push(path@, item);
            }
            path.push(item);
            self.collect_impl(&field.1, path, out);
            let _ = path.pop();
            assert(match_views(out@) =~= start + fields_matches(self@, pv, fv, (idx + 1) as nat));
            idx += 1;
        }
    }
}

impl Selector {
    /// `value` with the values this selector matches replaced, in the order
    /// the redaction walk reaches them (the order `matches` lists them in),
    /// by the values of `outs`.
    pub fn replace_matches(&self, value: &Content, outs: &Vec<Content>) -> (r: Content)
        requires
            matches_in(self@, seq![], value@).len() <= outs@.len(),
        ensures
            r@ == replace_in(self@, seq![], value@, content_views(outs@)),
    {
        let mut path: Vec<PathItem> = Vec::new();
        assert(path_view(path@) =~= seq![]);
        let (r, _) = self.replace_impl(value, &mut path, outs, 0);
        assert(content_views(outs@).skip(0) =~= content_views(outs@));
        r
    }

    fn replace_impl(&self, value: &Content, path: &mut Vec<PathItem>, outs: &Vec<Content>, pos: usize) -> (r:
        (Content, usize))
        requires
            pos + matches_in(self@, path_view(old(path)@), value@).len() <= outs@.len(),
        ensures
            r.0@ == replace_in(
                self@,
                path_view(old(path)@),
                value@,
                content_views(outs@).skip(pos as int),
            ),
            r.1 == pos + matches_in(self@, path_view(old(path)@), value@).len(),
            final(path)@ == old(path)@,
        decreases value, 2nat,
    {
        proof {
            crate::content::lemma_content_views(outs@);
        }
        if self.is_match(path) {
            assert(matches_in(self@, path_view(path@), value@).len() == 1);
            assert(content_views(outs@).skip(pos as int)[0] == outs@[pos as int]@);
            let n = outs.len();
            assert(pos < n);
            return (outs[pos].clone(), pos + 1);
        }
        match value {
            Content::Sequence(items) | Content::Tuple(items) | Content::TupleStruct(_, items)
            | Content::TupleVariant(_, _, _, items) => {
                proof {
                    crate::content::lemma_content_views(items@);
                }
            },
            Content::Mapping(map) => {
                proof {
                    crate::content::lemma_entry_views(map@);
                }
            },
            Content::Struct(_, fields) | Content::StructVariant(_, _, _, fields) => {
                proof {
                    crate::content::lemma_field_views(fields@);
                }
            },
            _ => {},
        }
        match value {
            Content::Mapping(map) => {
                let (m, next) = self.replace_map(map, path, outs, pos);
                (Content::Mapping(m), next)
            },
            Content::Sequence(seq) => {
                let (v, next) = self.replace_seq(seq, path, outs, pos);
                (Content::Sequence(v), next)
            },
            Content::Tuple(seq) => {
                let (v, next) = self.replace_seq(seq, path, outs, pos);
                (Content::Tuple(v), next)
            },
            Content::TupleStruct(name, seq) => {
                let (v, next) = self.replace_seq(seq, path, outs, pos);
                (Content::TupleStruct(name.clone(), v), next)
            },
            Content::TupleVariant(name, variant_index, variant, seq) => {
                let (v, next) = self.replace_seq(seq, path, outs, pos);
                (Content::TupleVariant(name.clone(), *variant_index, variant.clone(), v), next)
            },
            Content::Struct(name, fields) => {
                let (f, next) = self.replace_struct(fields, path, outs, pos);
                (Content::Struct(name.clone(), f), next)
            },
            Content::StructVariant(name, variant_index, variant, fields) => {
                let (f, next) = self.replace_struct(fields, path, outs, pos);
                (Content::StructVariant(name.clone(), *variant_index, variant.clone(), f), next)
            },
            Content::NewtypeStruct(name, inner) => {
                let (x, next) = self.replace_impl(inner, path, outs, pos);
                (Content::NewtypeStruct(name.clone(), Box::new(x)), next)
            },
            Content::NewtypeVariant(name, index, variant_name, inner) => {
                let (x, next) = self.replace_impl(inner, path, outs, pos);
                (Content::NewtypeVariant(name.clone(), *index, variant_name.clone(), Box::new(x)), next)
            },
            Content::Wrapped(inner) => {
                let (x, next) = self.replace_impl(inner, path, outs, pos);
                (Content::Wrapped(Box::new(x)), next)
            },
            other => (other.clone(), pos),
        }
    }

    fn replace_seq(&self, seq: &Vec<Content>, path: &mut Vec<PathItem>, outs: &Vec<Content>, pos: usize) -> (r:
        (Vec<Content>, usize))
        requires
            pos + items_matches(
                self@,
                path_view(old(path)@),
                content_views(seq@),
                seq@.len(),
            ).len() <= outs@.len(),
        ensures
            content_views(r.0@) == items_replace(
                self@,
                path_view(old(path)@),
                content_views(seq@),
                content_views(outs@).skip(pos as int),
                seq@.len(),
            ),
            r.1 == pos + items_matches(
                self@,
                path_view(old(path)@),
                content_views(seq@),
                seq@.len(),
            ).len(),
            final(path)@ == old(path)@,
        decreases seq, 1nat,
    {
        let ghost iv = content_views(seq@);
        let ghost pv = path_view(path@);
        let ghost ov = content_views(outs@);
        proof {
            crate::content::lemma_content_views(seq@);
            crate::content::lemma_content_views(outs@);
        }
        let len = seq.len();
        let mut out: Vec<Content> = Vec::new();
        let mut cur: usize = pos;
        let mut idx: usize = 0;
        while idx < len
            invariant
                len == seq@.len(),
                idx <= len,
                iv == content_views(seq@),
                iv.len() == seq@.len(),
                forall|i: int| 0 <= i < seq@.len() ==> #[trigger] iv[i] == seq@[i]@,
                pv == path_view(path@),
                path@ == old(path)@,
                ov == content_views(outs@),
                ov.len() == outs@.len(),
                pos + items_matches(self@, pv, iv, len as nat).len() <= outs@.len(),
                cur == pos + items_matches(self@, pv, iv, idx as nat).len(),
                out@.len() == idx,
                content_views(out@) == items_replace(self@, pv, iv, ov.skip(pos as int), idx as nat),
            decreases len - idx,
        {
            proof {
                lemma_path_push(path@, PathItem::Index(idx as u64, len as u64));
                assert(decreases_to!(seq => seq@[idx as int]));
                lemma_items_matches_prefix(self@, pv, iv, (idx + 1) as nat, len as nat);
                let k = items_matches(self@, pv, iv, idx as nat).len() as int;
                assert(ov.skip(pos as int).skip(k) =~= ov.skip(cur as int));
            }
            path.push(PathItem::Index(idx as u64, len as u64));
            let (nv, next) = self.replace_impl(&seq[idx], path, outs, cur);
            let _ = path.pop();
            proof {
                crate::content::lemma_content_views(out@);
            }
            let ghost before = out@;
            out.push(nv);
            proof {
                crate::content::lemma_content_views(out@);
                assert(content_views(out@) =~= content_views(before).push(nv@));
            }
            cur = next;
            idx += 1;
        }
        (out, cur)
    }

    fn replace_map(
        &self,
        map: &Vec<(Content, Content)>,
        path: &mut Vec<PathItem>,
        outs: &Vec<Content>,
        pos: usize,
    ) -> (r: (Vec<(Content, Content)>, usize))
        requires
            pos + entries_matches(
                self@,
                path_view(old(path)@),
                entry_views(map@),
                map@.len(),
            ).len() <= outs@.len(),
        ensures
            entry_views(r.0@) == entries_replace(
                self@,
                path_view(old(path)@),
                entry_views(map@),
                content_views(outs@).skip(pos as int),
                map@.len(),
            ),
            r.1 == pos + entries_matches(
                self@,
                path_view(old(path)@),
                entry_views(map@),
                map@.len(),
            ).len(),
            final(path)@ == old(path)@,
        decreases map, 1nat,
    {
        let ghost ev = entry_views(map@);
        let ghost pv = path_view(path@);
        let ghost ov = content_views(outs@);
        proof {
            crate::content::lemma_entry_views(map@);
            crate::content::lemma_content_views(outs@);
        }
        let mut out: Vec<(Content, Content)> = Vec::new();
        let mut cur: usize = pos;
        let mut idx: usize = 0;
        while idx < map.len()
            invariant
                idx <= map@.len(),
                ev == entry_views(map@),
                ev.len() == map@.len(),
                forall|i: int|
                    0 <= i < map@.len() ==> #[trigger] ev[i] == (map@[i].0@, map@[i].1@),
                pv == path_view(path@),
                path@ == old(path)@,
                ov == content_views(outs@),
                ov.len() == outs@.len(),
                pos + entries_matches(self@, pv, ev, map@.len() as nat).len() <= outs@.len(),
                cur == pos + entries_matches(self@, pv, ev, idx as nat).len(),
                out@.len() == idx,
                entry_views(out@) == entries_replace(self@, pv, ev, ov.skip(pos as int), idx as nat),
            decreases map.len() - idx,
        {
            let entry = &map[idx];
            proof {
                assert(ev[idx as int] == (map@[idx as int].0@, map@[idx as int].1@));
                assert(decreases_to!(map => map@[idx as int]));
                assert(decreases_to!(map@[idx as int] => map@[idx as int].0));
                assert(decreases_to!(map@[idx as int] => map@[idx as int].1));
                lemma_entries_matches_prefix(self@, pv, ev, (idx + 1) as nat, map@.len() as nat);
                let k = entries_matches(self@, pv, ev, idx as nat).len() as int;
                assert(ov.skip(pos as int).skip(k) =~= ov.skip(cur as int));
            }
            let key_item = PathItem::Field(key_marker());
            proof {
                lemma_path_push(path@, key_item);
            }
            let ghost p0 = path@;
            path.push(key_item);
            let (new_key, mid) = self.replace_impl(&entry.0, path, outs, cur);
            let _ = path.pop();
            assert(path@ =~= p0);
            let ci = PathItem::Content(entry.0.clone());
            proof {
                lemma_path_push(path@, ci);
                let k = entries_matches(self@, pv, ev, idx as nat).len() as int;
                let m = matches_in(
                    self@,
                    pv.push(PathItemV::Field(seq!['$', 'k', 'e', 'y'])),
                    ev[idx as int].0,
                ).len() as int;
                assert(ov.skip(pos as int).skip(k + m) =~= ov.skip(mid as int));
            }
            path.push(ci);
            let (new_value, next) = self.replace_impl(&entry.1, path, outs, mid);
            let _ = path.pop();
            assert(path@ =~= p0);
            proof {
                crate::content::lemma_entry_views(out@);
            }
            let ghost before = out@;
            out.push((new_key, new_value));
            proof {
                crate::content::lemma_entry_views(out@);
                assert(entry_views(out@) =~= entry_views(before).push((new_key@, new_value@)));
            }
            cur = next;
            idx += 1;
        }
        (out, cur)
    }

    fn replace_struct(
        &self,
        fields: &Vec<(String, Content)>,
        path: &mut Vec<PathItem>,
        outs: &Vec<Content>,
        pos: usize,
    ) -> (r: (Vec<(String, Content)>, usize))
        requires
            pos + fields_matches(
                self@,
                path_view(old(path)@),
                field_views(fields@),
                fields@.len(),
            ).len() <= outs@.len(),
        ensures
            field_views(r.0@) == fields_replace(
                self@,
                path_view(old(path)@),
                field_views(fields@),
                content_views(outs@).skip(pos as int),
                fields@.len(),
            ),
            r.1 == pos + fields_matches(
                self@,
                path_view(old(path)@),
                field_views(fields@),
                fields@.len(),
            ).len(),
            final(path)@ == old(path)@,
        decreases fields, 1nat,
    {
        let ghost fv = field_views(fields@);
        let ghost pv = path_view(path@);
        let ghost ov = content_views(outs@);
        proof {
            crate::content::lemma_field_views(fields@);
            crate::content::lemma_content_views(outs@);
        }
        let mut out: Vec<(String, Content)> = Vec::new();
        let mut cur: usize = pos;
        let mut idx: usize = 0;
        while idx < fields.len()
            invariant
                idx <= fields@.len(),
                fv == field_views(fields@),
                fv.len() == fields@.len(),
                forall|i: int|
                    0 <= i < fields@.len() ==> #[trigger] fv[i] == (fields@[i].0@, fields@[i].1@),
                pv == path_view(path@),
                path@ == old(path)@,
                ov == content_views(outs@),
                ov.len() == outs@.len(),
                pos + fields_matches(self@, pv, fv, fields@.len() as nat).len() <= outs@.len(),
                cur == pos + fields_matches(self@, pv, fv, idx as nat).len(),
                out@.len() == idx,
                field_views(out@) == fields_replace(self@, pv, fv, ov.skip(pos as int), idx as nat),
            decreases fields.len() - idx,
        {
            let field = &fields[idx];
            proof {
                assert(fv[idx as int] == (fields@[idx as int].0@, fields@[idx as int].1@));
                assert(decreases_to!(fields => fields@[idx as int]));
                assert(decreases_to!(fields@[idx as int] => fields@[idx as int].1));
                lemma_fields_matches_prefix(self@, pv, fv, (idx + 1) as nat, fields@.len() as nat);
                let k = fields_matches(self@, pv, fv, idx as nat).len() as int;
                assert(ov.skip(pos as int).skip(k) =~= ov.skip(cur as int));
            }
            let item = PathItem::Field(field.0.clone());
            proof {
                lemma_path_push(path@, item);
            }
            path.push(item);
            let (nv, next) = self.replace_impl(&field.1, path, outs, cur);
            let _ = path.pop();
            proof {
                crate::content::lemma_field_views(out@);
            }
            let ghost before = out@;
            out.push((field.0.clone(), nv));
            proof {
                crate::content::lemma_field_views(out@);
                assert(field_views(out@) =~= field_views(before).push((fields@[idx as int].0@, nv@)));
            }
            cur = next;
            idx += 1;
        }
        (out, cur)
    }
}

// ---------------------------------------------------------------------
// The selector grammar
// ---------------------------------------------------------------------
/// Whether `c` may stand in a key after `.`.
pub open spec fn is_ident_char(c: char) -> bool {
    ('a' <= c && c <= 'z') || ('A' <= c && c <= 'Z') || ('0' <= c && c <= '9') || c == '_'
        || c == '$' || c == '-'
}

/// Whether `c` is an ASCII digit.
pub open spec fn is_digit(c: char) -> bool {
    '0' <= c && c <= '9'
}

/// The end of the run of key characters from `i`.
pub open spec fn ident_end(s: Seq<char>, i: int) -> int
    decreases s.len() - i,
{
    if 0 <= i < s.len() && is_ident_char(s[i]) {
        ident_end(s, i + 1)
    } else {
        i
    }
}

/// The end of the run of digits from `i`.
pub open spec fn digits_end(s: Seq<char>, i: int) -> int
    decreases s.len() - i,
{
    if 0 <= i < s.len() && is_digit(s[i]) {
        digits_end(s, i + 1)
    } else {
        i
    }
}

/// The decimal value of the digits `s[i..j]`.
pub open spec fn digits_value(s: Seq<char>, i: int, j: int) -> nat
    decreases j - i,
{
    if j <= i {
        0
    } else {
        digits_value(s, i, j - 1) * 10 + ((s[j - 1] as nat) - 48) as nat
    }
}

/// An integer literal at `i` (digits with an optional leading `-`): its
/// value and where it ends.
pub open spec fn int_at(s: Seq<char>, i: int) -> Option<(int, int)> {
    let neg = 0 <= i < s.len() && s[i] == '-';
    let d0 = if neg {
        i + 1
    } else {
        i
    };
    let e = digits_end(s, d0);
    if e == d0 {
        None
    } else if neg {
        Some((-digits_value(s, d0, e), e))
    } else {
        Some((digits_value(s, d0, e) as int, e))
    }
}

/// Where the body of a string literal that opened before `j` ends (at its
/// closing quote); a backslash takes the next character with it.
pub open spec fn string_close(s: Seq<char>, j: int) -> Option<int>
    decreases s.len() + 2 - j,
{
    if j < 0 || j >= s.len() {
        None
    } else if s[j] == '"' {
        Some(j)
    } else if s[j] == '\\' {
        string_close(s, j + 2)
    } else {
        string_close(s, j + 1)
    }
}

/// The body of a string literal with each backslash dropped and the
/// character after it kept.
pub open spec fn unescape(t: Seq<char>) -> Seq<char>
    decreases t.len(),
{
    if t.len() == 0 {
        t
    } else if t[0] == '\\' {
        if t.len() >= 2 {
            seq![t[1]] + unescape(t.skip(2))
        } else {
            seq![]
        }
    } else {
        seq![t[0]] + unescape(t.skip(1))
    }
}

/// The character at `i`, if there is one, is `c`.
pub open spec fn at(s: Seq<char>, i: int, c: char) -> bool {
    0 <= i < s.len() && s[i] == c
}

/// A bound of a range, where it fits an `i64`.
pub open spec fn bound(v: int) -> Option<i64> {
    if i64::MIN <= v <= i64::MAX {
        Some(v as i64)
    } else {
        None
    }
}

/// A subscript opened by `[` at `i`: the segment and where it ends.
pub open spec fn subscript_at(s: Seq<char>, i: int) -> Option<(SegmentV, int)> {
    let j = i + 1;
    if at(s, j, ']') {
        Some((SegmentV::Range(None, None), j + 1))
    } else if at(s, j, '"') {
        match string_close(s, j + 1) {
            Some(e) => if at(s, e + 1, ']') {
                Some((SegmentV::Key(unescape(s.subrange(j + 1, e))), e + 2))
            } else {
                None
            },
            None => None,
        }
    } else if at(s, j, ':') {
        match int_at(s, j + 1) {
            Some((v, e)) => if at(s, e, ']') {
                Some((SegmentV::Range(None, bound(v)), e + 1))
            } else {
                None
            },
            None => None,
        }
    } else {
        match int_at(s, j) {
            Some((v, e)) => if at(s, e, ']') {
                if 0 <= v <= u64::MAX {
                    Some((SegmentV::Index(v as u64), e + 1))
                } else {
                    None
                }
            } else if at(s, e, ':') {
                if at(s, e + 1, ']') {
                    Some((SegmentV::Range(bound(v), None), e + 2))
                } else {
                    match int_at(s, e + 1) {
                        Some((w, e2)) => if at(s, e2, ']') && bound(v) is Some && bound(
                            w,
                        ) is Some {
                            Some((SegmentV::Range(bound(v), bound(w)), e2 + 1))
                        } else {
                            None
                        },
                        None => None,
                    }
                }
            } else {
                None
            },
            None => None,
        }
    }
}

/// A segment at `i`: the segment and where it ends.
pub open spec fn segment_at(s: Seq<char>, i: int) -> Option<(SegmentV, int)> {
    if at(s, i, '.') {
        if at(s, i + 1, '*') && at(s, i + 2, '*') {
            Some((SegmentV::DeepWildcard, i + 3))
        } else if at(s, i + 1, '*') {
            Some((SegmentV::Wildcard, i + 2))
        } else if ident_end(s, i + 1) > i + 1 {
            Some((SegmentV::Key(s.subrange(i + 1, ident_end(s, i + 1))), ident_end(s, i + 1)))
        } else {
            None
        }
    } else if at(s, i, '[') {
        subscript_at(s, i)
    } else {
        None
    }
}

/// The run of segments from `i`, after the segments `acc`: the segments
/// and where they end, or `None` where a second deep wildcard comes.
pub open spec fn segments_from(s: Seq<char>, i: int, acc: Seq<SegmentV>) -> Option<
    (Seq<SegmentV>, int),
>
    decreases s.len() - i,
{
    match segment_at(s, i) {
        Some((seg, e)) => if e <= i || e > s.len() {
            None
        } else if seg is DeepWildcard && (exists|k: int|
            0 <= k < acc.len() && #[trigger] acc[k] is DeepWildcard) {
            None
        } else {
            segments_from(s, e, acc.push(seg))
        },
        None => Some((acc, i)),
    }
}

/// One path at `i`: a run of segments, or `.` alone.
pub open spec fn path_at(s: Seq<char>, i: int) -> Option<(Seq<SegmentV>, int)> {
    match segments_from(s, i, seq![]) {
        Some((segs, e)) => if segs.len() > 0 {
            Some((segs, e))
        } else if at(s, i, '.') {
            Some((seq![], i + 1))
        } else {
            None
        },
        None => None,
    }
}

/// The end of the run of spaces from `i`.
pub open spec fn spaces_end(s: Seq<char>, i: int) -> int
    decreases s.len() - i,
{
    if 0 <= i < s.len() && s[i] == ' ' {
        spaces_end(s, i + 1)
    } else {
        i
    }
}

/// A run of spaces ends no earlier than it starts, and within the text.
pub proof fn lemma_spaces_end(s: Seq<char>, i: int)
    ensures
        i <= spaces_end(s, i),
        0 <= i <= s.len() ==> spaces_end(s, i) <= s.len(),
        spaces_end(s, i) > i ==> 0 <= i < s.len(),
    decreases s.len() - i,
{
    if 0 <= i < s.len() && s[i] == ' ' {
        lemma_spaces_end(s, i + 1);
    }
}

/// The paths from `i` to the end, after the paths `acc`.
pub open spec fn paths_from(s: Seq<char>, i: int, acc: Seq<Seq<SegmentV>>) -> Option<
    Seq<Seq<SegmentV>>,
>
    decreases s.len() - i,
{
    match path_at(s, i) {
        Some((segs, e)) => {
            let e2 = spaces_end(s, e);
            if e < i || e2 < e || e2 >= s.len() && e2 != s.len() {
                None
            } else if e2 == s.len() {
                Some(acc.push(segs))
            } else if s[e2] == ',' {
                proof {
                    lemma_spaces_end(s, e);
                    lemma_spaces_end(s, e2 + 1);
                }
                paths_from(s, spaces_end(s, e2 + 1), acc.push(segs))
            } else {
                None
            }
        },
        None => None,
    }
}

/// The selector that `s` spells, if it spells one.
pub open spec fn parse_selector(s: Seq<char>) -> Option<Seq<Seq<SegmentV>>> {
    paths_from(s, spaces_end(s, 0), seq![])
}

// ---------------------------------------------------------------------
// The parser
// ---------------------------------------------------------------------
/// Why a selector could not be parsed, and where.
#[derive(Debug)]
pub struct SelectorParseError {
    pub column: usize,
}

impl SelectorParseError {
    /// The column (counted from one) at which parsing stopped.
    pub fn column(&self) -> (r: usize)
        ensures
            r == self.column,
    {
        self.column
    }
}

/// The parser of the selector grammar.
pub struct SelectParser;

fn is_ident_char_exec(c: char) -> (r: bool)
    ensures
        r == is_ident_char(c),
{
    ('a' <= c && c <= 'z') || ('A' <= c && c <= 'Z') || ('0' <= c && c <= '9') || c == '_' || c
        == '$' || c == '-'
}

fn at_exec(s: &Vec<char>, i: usize, c: char) -> (r: bool)
    ensures
        r == at(s@, i as int, c),
{
    i < s.len() && s[i] == c
}

impl SelectParser {
    fn scan_ident(s: &Vec<char>, i: usize) -> (e: usize)
        requires
            i <= s@.len(),
        ensures
            e as int == ident_end(s@, i as int),
            i <= e <= s@.len(),
    {
        let mut j = i;
        while j < s.len() && is_ident_char_exec(s[j])
            invariant
                i <= j <= s@.len(),
                ident_end(s@, i as int) == ident_end(s@, j as int),
            decreases s.len() - j,
        {
            j += 1;
        }
        j
    }

    fn scan_spaces(s: &Vec<char>, i: usize) -> (e: usize)
        requires
            i <= s@.len(),
        ensures
            e as int == spaces_end(s@, i as int),
            i <= e <= s@.len(),
    {
        let mut j = i;
        while j < s.len() && s[j] == ' '
            invariant
                i <= j <= s@.len(),
                spaces_end(s@, i as int) == spaces_end(s@, j as int),
            decreases s.len() - j,
        {
            j += 1;
        }
        j
    }

    /// An integer literal at `i`: where it ends, and its value where that
    /// is within 2^64 of zero.
    fn scan_int(s: &Vec<char>, i: usize) -> (r: Option<(usize, Option<i128>)>)
        requires
            i <= s@.len(),
        ensures
            match r {
                None => int_at(s@, i as int) is None,
                Some((e, val)) => {
                    &&& int_at(s@, i as int) is Some
                    &&& int_at(s@, i as int).unwrap().1 == e as int
                    &&& i < e <= s@.len()
                    &&& match val {
                        Some(x) => x as int == int_at(s@, i as int).unwrap().0,
                        None => !(-0x1_0000_0000_0000_0000int <= int_at(s@, i as int).unwrap().0
                            <= 0x1_0000_0000_0000_0000int),
                    }
                },
            },
    {
        let neg = i < s.len() && s[i] == '-';
        let d0 = if neg {
            i + 1
        } else {
            i
        };
        let mut j = d0;
        let mut acc: u128 = 0;
        let mut big = false;
        while j < s.len() && '0' <= s[j] && s[j] <= '9'
            invariant
                d0 <= j <= s@.len(),
                digits_end(s@, d0 as int) == digits_end(s@, j as int),
                !big ==> acc == digits_value(s@, d0 as int, j as int) && acc
                    <= 0x1_0000_0000_0000_0000int,
                big ==> digits_value(s@, d0 as int, j as int) > 0x1_0000_0000_0000_0000int,
            decreases s.len() - j,
        {
            let d = (s[j] as u32 - 48) as u128;
            if !big {
                let next = acc * 10 + d;
                if next > 0x1_0000_0000_0000_0000u128 {
                    big = true;
                } else {
                    acc = next;
                }
            }
            j += 1;
        }
        if j == d0 {
            return None;
        }
        if big {
            Some((j, None))
        } else if neg {
            Some((j, Some(-(acc as i128))))
        } else {
            Some((j, Some(acc as i128)))
        }
    }

    /// Where the string literal whose body starts at `j` closes.
    fn scan_string(s: &Vec<char>, j: usize) -> (r: Option<usize>)
        requires
            j <= s@.len(),
            s@.len() + 4 <= usize::MAX,
        ensures
            match r {
                Some(e) => string_close(s@, j as int) == Some(e as int) && j <= e < s@.len(),
                None => string_close(s@, j as int) is None,
            },
    {
        let mut k = j;
        while k < s.len()
            invariant
                s@.len() + 4 <= usize::MAX,
                j <= k <= s@.len() + 1,
                string_close(s@, j as int) == string_close(s@, k as int),
            decreases s.len() + 2 - k,
        {
            if s[k] == '"' {
                return Some(k);
            }
            if s[k] == '\\' {
                k += 2;
            } else {
                k += 1;
            }
        }
        None
    }

    /// The body of a string literal with its escapes resolved.
    fn unescape_chars(t: &Vec<char>) -> (r: Vec<char>)
        ensures
            r@ == unescape(t@),
    {
        let mut out: Vec<char> = Vec::new();
        let mut i: usize = 0;
        assert(t@.skip(0) =~= t@);
        while i < t.len()
            invariant
                i <= t@.len(),
                out@ + unescape(t@.skip(i as int)) == unescape(t@),
            decreases t.len() - i,
        {
            let ghost rest = t@.skip(i as int);
            if t[i] == '\\' {
                if i + 1 < t.len() {
                    assert(rest.skip(2) =~= t@.skip(i + 2));
                    assert(out@.push(t@[i + 1]) + unescape(t@.skip(i + 2)) =~= out@ + unescape(
                        rest,
                    ));
                    out.push(t[i + 1]);
                    i += 2;
                } else {
                    assert(out@ + unescape(rest) =~= out@);
                    assert(t@.skip(t@.len() as int) =~= Seq::<char>::empty());
                    i = t.len();
                }
            } else {
                assert(rest.skip(1) =~= t@.skip(i + 1));
                assert(out@.push(t@[i as int]) + unescape(t@.skip(i + 1)) =~= out@ + unescape(
                    rest,
                ));
                out.push(t[i]);
                i += 1;
            }
        }
        assert(t@.skip(i as int) =~= Seq::<char>::empty());
        assert(out@ + unescape(Seq::<char>::empty()) =~= out@);
        out
    }

    fn as_bound(v: i128) -> (r: Option<i64>)
        ensures
            r == bound(v as int),
    {
        if i64::MIN as i128 <= v && v <= i64::MAX as i128 {
            Some(v as i64)
        } else {
            None
        }
    }

    /// The bound of an integer literal whose value may be out of reach.
    fn opt_bound(val: Option<i128>, Ghost(v): Ghost<int>) -> (r: Option<i64>)
        requires
            match val {
                Some(x) => x as int == v,
                None => !(-0x1_0000_0000_0000_0000int <= v <= 0x1_0000_0000_0000_0000int),
            },
        ensures
            r == bound(v),
    {
        match val {
            Some(x) => Self::as_bound(x),
            None => None,
        }
    }

    fn subscript(s: &Vec<char>, i: usize) -> (r: Option<(Segment, usize)>)
        requires
            i < s@.len(),
            s@.len() + 4 <= usize::MAX,
            s@[i as int] == '[',
        ensures
            match r {
                None => subscript_at(s@, i as int) is None,
                Some((seg, e)) => subscript_at(s@, i as int) == Some((seg@, e as int)) && i < e
                    <= s@.len(),
            },
    {
        let j = i + 1;
        if at_exec(s, j, ']') {
            return Some((Segment::Range(None, None), j + 1));
        }
        if at_exec(s, j, '"') {
            return match Self::scan_string(s, j + 1) {
                Some(e) => if at_exec(s, e + 1, ']') {
                    let body = slice_copy(s.as_slice(), j + 1, e);
                    let key = Self::unescape_chars(&body);
                    Some((Segment::Key(string_from(key.as_slice())), e + 2))
                } else {
                    None
                },
                None => None,
            };
        }
        if at_exec(s, j, ':') {
            return match Self::scan_int(s, j + 1) {
                Some((e, val)) => if at_exec(s, e, ']') {
                    let b = Self::opt_bound(val, Ghost(int_at(s@, j + 1).unwrap().0));
                    Some((Segment::Range(None, b), e + 1))
                } else {
                    None
                },
                None => None,
            };
        }
        match Self::scan_int(s, j) {
            Some((e, val)) => {
                let ghost v = int_at(s@, j as int).unwrap().0;
                if at_exec(s, e, ']') {
                    match val {
                        Some(x) => if 0 <= x && x <= u64::MAX as i128 {
                            Some((Segment::Index(x as u64), e + 1))
                        } else {
                            None
                        },
                        None => None,
                    }
                } else if at_exec(s, e, ':') {
                    let a = Self::opt_bound(val, Ghost(v));
                    if at_exec(s, e + 1, ']') {
                        Some((Segment::Range(a, None), e + 2))
                    } else {
                        match Self::scan_int(s, e + 1) {
                            Some((e2, val2)) => {
                                let b = Self::opt_bound(
                                    val2,
                                    Ghost(int_at(s@, e + 1).unwrap().0),
                                );
                                if at_exec(s, e2, ']') && a.is_some() && b.is_some() {
                                    Some((Segment::Range(a, b), e2 + 1))
                                } else {
                                    None
                                }
                            },
                            None => None,
                        }
                    }
                } else {
                    None
                }
            },
            None => None,
        }
    }

    /// The segment at `i`, and where it ends.
    fn segment(s: &Vec<char>, i: usize) -> (r: Option<(Segment, usize)>)
        requires
            i <= s@.len(),
            s@.len() + 4 <= usize::MAX,
        ensures
            match r {
                None => segment_at(s@, i as int) is None,
                Some((seg, e)) => segment_at(s@, i as int) == Some((seg@, e as int)) && i < e
                    <= s@.len(),
            },
    {
        if at_exec(s, i, '.') {
            if at_exec(s, i + 1, '*') && at_exec(s, i + 2, '*') {
                Some((Segment::DeepWildcard, i + 3))
            } else if at_exec(s, i + 1, '*') {
                Some((Segment::Wildcard, i + 2))
            } else {
                let e = Self::scan_ident(s, i + 1);
                if e > i + 1 {
                    let key = slice_copy(s.as_slice(), i + 1, e);
                    Some((Segment::Key(string_from(key.as_slice())), e))
                } else {
                    None
                }
            }
        } else if at_exec(s, i, '[') {
            Self::subscript(s, i)
        } else {
            None
        }
    }

    /// Parses the paths of a selector.
    pub fn parse_paths(text: &str) -> (r: Result<Vec<Vec<Segment>>, SelectorParseError>)
        requires
            text@.len() + 4 <= usize::MAX,
        ensures
            match r {
                Ok(paths) => parse_selector(text@) == Some(
                    paths@.map_values(|v: Vec<Segment>| v@.map_values(|s: Segment| s@)),
                ),
                Err(_) => parse_selector(text@) is None,
            },
    {
        let s = chars_of(text);
        let mut rv: Vec<Vec<Segment>> = Vec::new();
        let mut i = Self::scan_spaces(&s, 0);
        assert(rv@.map_values(|v: Vec<Segment>| v@.map_values(|x: Segment| x@)) =~= Seq::<
            Seq<SegmentV>,
        >::empty());
        loop
            invariant
                s@ == text@,
                s@.len() + 4 <= usize::MAX,
                i <= s@.len(),
                parse_selector(text@) == paths_from(
                    s@,
                    i as int,
                    rv@.map_values(|v: Vec<Segment>| v@.map_values(|x: Segment| x@)),
                ),
            decreases s@.len() - i,
        {
            let ghost acc = rv@.map_values(|v: Vec<Segment>| v@.map_values(|x: Segment| x@));
            let start = i;
            let mut segs: Vec<Segment> = Vec::new();
            let mut have_deep = false;
            assert(segs@.map_values(|x: Segment| x@) =~= Seq::<SegmentV>::empty());
            loop
                invariant
                    s@ == text@,
                    parse_selector(text@) == paths_from(s@, start as int, acc),
                    s@.len() + 4 <= usize::MAX,
                    start <= i <= s@.len(),
                    segments_from(s@, start as int, seq![]) == segments_from(
                        s@,
                        i as int,
                        segs@.map_values(|x: Segment| x@),
                    ),
                    have_deep == (exists|k: int|
                        0 <= k < segs@.len() && #[trigger] segs@[k]@ is DeepWildcard),
                    segs@.len() == 0 ==> i == start,
                ensures
                    segments_from(s@, start as int, seq![]) == Some(
                        (segs@.map_values(|x: Segment| x@), i as int),
                    ),
                    segs@.len() == 0 ==> i == start,
                    start <= i <= s@.len(),
                decreases s@.len() - i,
            {
                let ghost sv = segs@.map_values(|x: Segment| x@);
                match Self::segment(&s, i) {
                    Some((seg, e)) => {
                        let deep = is_deep(&seg);
                        if deep && have_deep {
                            assert(segments_from(s@, i as int, sv) is None) by {
                                let k = choose|k: int|
                                    0 <= k < segs@.len() && #[trigger] segs@[k]@ is DeepWildcard;
                                assert(sv[k] is DeepWildcard);
                            }
                            assert(path_at(s@, start as int) is None);
                            assert(paths_from(s@, start as int, acc) is None);
                            return Err(SelectorParseError { column: i + 1 });
                        }
                        proof {
                            if !(seg@ is DeepWildcard) {
                                assert forall|k: int|
                                    0 <= k < sv.len() && #[trigger] sv[k] is DeepWildcard implies have_deep by {
                                    assert(segs@[k]@ is DeepWildcard);
                                }
                            }
                        }
                        let ghost old_segs = segs@;
                        let ghost old_deep = have_deep;
                        segs.push(seg);
                        assert(segs@.map_values(|x: Segment| x@) =~= sv.push(seg@));
                        have_deep = have_deep || deep;
                        assert(have_deep == (exists|k: int|
                            0 <= k < segs@.len() && #[trigger] segs@[k]@ is DeepWildcard)) by {
                            if deep {
                                assert(segs@[segs@.len() - 1]@ is DeepWildcard);
                            }
                            if old_deep {
                                let k = choose|k: int|
                                    0 <= k < old_segs.len() && #[trigger] old_segs[k]@ is DeepWildcard;
                                assert(segs@[k] == old_segs[k]);
                                assert(segs@[k]@ is DeepWildcard);
                            }
                            if !deep && !old_deep {
                                assert forall|k: int|
                                    0 <= k < segs@.len() implies !(#[trigger] segs@[k]@ is DeepWildcard) by {
                                    if k < old_segs.len() {
                                        assert(segs@[k] == old_segs[k]);
                                    }
                                }
                            }
                        }
                        i = e;
                    },
                    None => {
                        assert(segments_from(s@, i as int, sv) == Some((sv, i as int)));
                        break ;
                    },
                }
            }
            let ghost sv = segs@.map_values(|x: Segment| x@);
            if segs.len() == 0 {
                assert(sv =~= seq![]);
                if at_exec(&s, i, '.') {
                    i = i + 1;
                } else {
                    assert(path_at(s@, start as int) is None);
                    assert(paths_from(s@, start as int, acc) is None);
                    return Err(SelectorParseError { column: i + 1 });
                }
            }
            assert(path_at(s@, start as int) == Some((sv, i as int)));
            rv.push(segs);
            assert(rv@.map_values(|v: Vec<Segment>| v@.map_values(|x: Segment| x@)) =~= acc.push(
                sv,
            ));
            let e2 = Self::scan_spaces(&s, i);
            if e2 == s.len() {
                return Ok(rv);
            }
            if s[e2] == ',' {
                i = Self::scan_spaces(&s, e2 + 1);
            } else {
                return Err(SelectorParseError { column: e2 + 1 });
            }
        }
    }
}

impl Selector {
    /// Parses a selector.
    pub fn parse(selector: &str) -> (r: Result<Selector, SelectorParseError>)
        requires
            selector@.len() + 4 <= usize::MAX,
        ensures
            match r {
                Ok(sel) => parse_selector(selector@) == Some(sel@),
                Err(_) => parse_selector(selector@) is None,
            },
    {
        match SelectParser::parse_paths(selector) {
            Ok(paths) => Ok(Selector { selectors: paths }),
            Err(e) => Err(e),
        }
    }
}

// ---------------------------------------------------------------------
// Every matched value is reached
// ---------------------------------------------------------------------
/// The path of the `i`-th of `n` elements below `path`.
pub open spec fn element_path(path: Seq<PathItemV>, i: int, n: int) -> Seq<PathItemV> {
    path.push(PathItemV::Index(i as u64, n as u64))
}

/// Whether `out` is `items` with each element redacted at its own path.
pub open spec fn elements_redacted(
    sels: Seq<Seq<SegmentV>>,
    path: Seq<PathItemV>,
    items: Seq<ContentV>,
    g: spec_fn(ContentV, Seq<PathItemV>) -> ContentV,
    out: Seq<ContentV>,
) -> bool {
    &&& out.len() == items.len()
    &&& forall|i: int|
        0 <= i < items.len() ==> #[trigger] out[i] == redact_with_v(
            sels,
            element_path(path, i, items.len() as int),
            items[i],
            g,
        )
    &&& forall|i: int|
        0 <= i < items.len() && matches_any(sels, element_path(path, i, items.len() as int))
            ==> #[trigger] out[i] == g(items[i], element_path(path, i, items.len() as int))
}

/// Whether `out` is the map entries `es`, each key redacted at `$key` and
/// each value at its key.
pub open spec fn entries_redacted(
    sels: Seq<Seq<SegmentV>>,
    path: Seq<PathItemV>,
    es: Seq<(ContentV, ContentV)>,
    g: spec_fn(ContentV, Seq<PathItemV>) -> ContentV,
    out: Seq<(ContentV, ContentV)>,
) -> bool {
    &&& out.len() == es.len()
    &&& forall|i: int|
        0 <= i < es.len() ==> #[trigger] out[i] == (
            redact_with_v(sels, path.push(PathItemV::Field(seq!['$', 'k', 'e', 'y'])), es[i].0, g),
            redact_with_v(sels, path.push(PathItemV::Content(es[i].0)), es[i].1, g),
        )
}

/// Whether `out` is the struct fields `fs`, each with its name and its
/// value redacted at its name.
pub open spec fn fields_redacted(
    sels: Seq<Seq<SegmentV>>,
    path: Seq<PathItemV>,
    fs: Seq<(Seq<char>, ContentV)>,
    g: spec_fn(ContentV, Seq<PathItemV>) -> ContentV,
    out: Seq<(Seq<char>, ContentV)>,
) -> bool {
    &&& out.len() == fs.len()
    &&& forall|i: int|
        0 <= i < fs.len() ==> #[trigger] out[i] == (
            fs[i].0,
            redact_with_v(sels, path.push(PathItemV::Field(fs[i].0)), fs[i].1, g),
        )
}

proof fn lemma_items_redacted(
    sels: Seq<Seq<SegmentV>>,
    path: Seq<PathItemV>,
    items: Seq<ContentV>,
    g: spec_fn(ContentV, Seq<PathItemV>) -> ContentV,
    n: nat,
)
    requires
        n <= items.len(),
    ensures
        redact_items(sels, path, items, g, n).len() == n,
        forall|i: int|
            0 <= i < n ==> #[trigger] redact_items(sels, path, items, g, n)[i] == redact_with_v(
                sels,
                element_path(path, i, items.len() as int),
                items[i],
                g,
            ),
    decreases n,
{
    if n > 0 {
        lemma_items_redacted(sels, path, items, g, (n - 1) as nat);
        let prev = redact_items(sels, path, items, g, (n - 1) as nat);
        assert forall|i: int| 0 <= i < n implies #[trigger] redact_items(sels, path, items, g, n)[i]
            == redact_with_v(sels, element_path(path, i, items.len() as int), items[i], g) by {
            if i < n - 1 {
                assert(redact_items(sels, path, items, g, n)[i] == prev[i]);
            }
        }
    }
}

proof fn lemma_entries_redacted(
    sels: Seq<Seq<SegmentV>>,
    path: Seq<PathItemV>,
    es: Seq<(ContentV, ContentV)>,
    g: spec_fn(ContentV, Seq<PathItemV>) -> ContentV,
    n: nat,
)
    requires
        n <= es.len(),
    ensures
        redact_entries(sels, path, es, g, n).len() == n,
        forall|i: int|
            0 <= i < n ==> #[trigger] redact_entries(sels, path, es, g, n)[i] == (
                redact_with_v(sels, path.push(PathItemV::Field(seq!['$', 'k', 'e', 'y'])), es[i].0, g),
                redact_with_v(sels, path.push(PathItemV::Content(es[i].0)), es[i].1, g),
            ),
    decreases n,
{
    if n > 0 {
        lemma_entries_redacted(sels, path, es, g, (n - 1) as nat);
        let prev = redact_entries(sels, path, es, g, (n - 1) as nat);
        assert forall|i: int| 0 <= i < n implies #[trigger] redact_entries(sels, path, es, g, n)[i] == (
            redact_with_v(sels, path.push(PathItemV::Field(seq!['$', 'k', 'e', 'y'])), es[i].0, g),
            redact_with_v(sels, path.push(PathItemV::Content(es[i].0)), es[i].1, g),
        ) by {
            if i < n - 1 {
                assert(redact_entries(sels, path, es, g, n)[i] == prev[i]);
            }
        }
    }
}

proof fn lemma_fields_redacted(
    sels: Seq<Seq<SegmentV>>,
    path: Seq<PathItemV>,
    fs: Seq<(Seq<char>, ContentV)>,
    g: spec_fn(ContentV, Seq<PathItemV>) -> ContentV,
    n: nat,
)
    requires
        n <= fs.len(),
    ensures
        redact_fields(sels, path, fs, g, n).len() == n,
        forall|i: int|
            0 <= i < n ==> #[trigger] redact_fields(sels, path, fs, g, n)[i] == (
                fs[i].0,
                redact_with_v(sels, path.push(PathItemV::Field(fs[i].0)), fs[i].1, g),
            ),
    decreases n,
{
    if n > 0 {
        lemma_fields_redacted(sels, path, fs, g, (n - 1) as nat);
        let prev = redact_fields(sels, path, fs, g, (n - 1) as nat);
        assert forall|i: int| 0 <= i < n implies #[trigger] redact_fields(sels, path, fs, g, n)[i] == (
            fs[i].0,
            redact_with_v(sels, path.push(PathItemV::Field(fs[i].0)), fs[i].1, g),
        ) by {
            if i < n - 1 {
                assert(redact_fields(sels, path, fs, g, n)[i] == prev[i]);
            }
        }
    }
}

proof fn lemma_elements_redacted(
    sels: Seq<Seq<SegmentV>>,
    path: Seq<PathItemV>,
    items: Seq<ContentV>,
    g: spec_fn(ContentV, Seq<PathItemV>) -> ContentV,
)
    ensures
        elements_redacted(sels, path, items, g, redact_items(sels, path, items, g, items.len())),
{
    lemma_items_redacted(sels, path, items, g, items.len());
    let out = redact_items(sels, path, items, g, items.len());
    assert forall|i: int|
        0 <= i < items.len() && matches_any(sels, element_path(path, i, items.len() as int))
            implies #[trigger] out[i] == g(items[i], element_path(path, i, items.len() as int)) by {
        assert(out[i] == redact_with_v(sels, element_path(path, i, items.len() as int), items[i], g));
    }
}

/// Redaction reaches every value whose path the selector matches: a value
/// at a matching path becomes what `g` makes of it; any other value keeps
/// its kind and name, and what it holds is redacted in turn.  The
/// elements of a sequence, a tuple, a tuple struct and a tuple variant are
/// redacted at the path extended by their index and the length (so an
/// element at a matching path is replaced), the keys of a map at `$key`
/// and its values at their keys, the fields of a struct or struct variant
/// at their names, and the value inside a newtype or wrapper at the same
/// path; a scalar stays as it is.
pub proof fn lemma_redaction_reaches_every_match(
    sels: Seq<Seq<SegmentV>>,
    path: Seq<PathItemV>,
    v: ContentV,
    g: spec_fn(ContentV, Seq<PathItemV>) -> ContentV,
)
    ensures
        ({
            let r = redact_with_v(sels, path, v, g);
            if matches_any(sels, path) {
                r == g(v, path)
            } else {
                match v {
                    ContentV::Sequence(items) => r matches ContentV::Sequence(out)
                        && elements_redacted(sels, path, items, g, out),
                    ContentV::Tuple(items) => r matches ContentV::Tuple(out) && elements_redacted(
                        sels,
                        path,
                        items,
                        g,
                        out,
                    ),
                    ContentV::TupleStruct(n, items) => r matches ContentV::TupleStruct(m, out) && m
                        == n && elements_redacted(sels, path, items, g, out),
                    ContentV::TupleVariant(n, i, var, items) => r matches ContentV::TupleVariant(
                        m,
                        j,
                        w,
                        out,
                    ) && m == n && j == i && w == var && elements_redacted(sels, path, items, g, out),
                    ContentV::Mapping(es) => r matches ContentV::Mapping(out) && entries_redacted(
                        sels,
                        path,
                        es,
                        g,
                        out,
                    ),
                    ContentV::Struct(n, fs) => r matches ContentV::Struct(m, out) && m == n
                        && fields_redacted(sels, path, fs, g, out),
                    ContentV::StructVariant(n, i, var, fs) => r matches ContentV::StructVariant(
                        m,
                        j,
                        w,
                        out,
                    ) && m == n && j == i && w == var && fields_redacted(sels, path, fs, g, out),
                    ContentV::NewtypeStruct(n, inner) => r == ContentV::NewtypeStruct(
                        n,
                        Box::new(redact_with_v(sels, path, *inner, g)),
                    ),
                    ContentV::NewtypeVariant(n, i, var, inner) => r == ContentV::NewtypeVariant(
                        n,
                        i,
                        var,
                        Box::new(redact_with_v(sels, path, *inner, g)),
                    ),
                    ContentV::Wrapped(inner) => r == ContentV::Wrapped(
                        Box::new(redact_with_v(sels, path, *inner, g)),
                    ),
                    _ => r == v,
                }
            }
        }),
{
    if !matches_any(sels, path) {
        match v {
            ContentV::Sequence(items) => lemma_elements_redacted(sels, path, items, g),
            ContentV::Tuple(items) => lemma_elements_redacted(sels, path, items, g),
            ContentV::TupleStruct(_, items) => lemma_elements_redacted(sels, path, items, g),
            ContentV::TupleVariant(_, _, _, items) => lemma_elements_redacted(sels, path, items, g),
            ContentV::Mapping(es) => lemma_entries_redacted(sels, path, es, g, es.len()),
            ContentV::Struct(_, fs) => lemma_fields_redacted(sels, path, fs, g, fs.len()),
            ContentV::StructVariant(_, _, _, fs) => lemma_fields_redacted(sels, path, fs, g, fs.len()),
            _ => {},
        }
    }
}

/// With a redaction, a value at a matching path is what the redaction
/// makes of it, and the element of a sequence, tuple, tuple struct or
/// tuple variant at a matching index is what the redaction makes of that
/// element.
pub proof fn lemma_redaction_replaces_matched_elements(
    sels: Seq<Seq<SegmentV>>,
    path: Seq<PathItemV>,
    v: ContentV,
    red: RedactionV,
)
    ensures
        matches_any(sels, path) ==> redact_v(sels, path, v, red) == redacted_value(red, v),
        !matches_any(sels, path) ==> match v {
            ContentV::Sequence(items) => redact_v(sels, path, v, red) matches ContentV::Sequence(out)
                && out.len() == items.len() && forall|i: int|
                0 <= i < items.len() && matches_any(sels, element_path(path, i, items.len() as int))
                    ==> #[trigger] out[i] == redacted_value(red, items[i]),
            ContentV::Tuple(items) => redact_v(sels, path, v, red) matches ContentV::Tuple(out)
                && out.len() == items.len() && forall|i: int|
                0 <= i < items.len() && matches_any(sels, element_path(path, i, items.len() as int))
                    ==> #[trigger] out[i] == redacted_value(red, items[i]),
            ContentV::TupleStruct(_, items) => redact_v(sels, path, v, red) matches ContentV::TupleStruct(
                _,
                out,
            ) && out.len() == items.len() && forall|i: int|
                0 <= i < items.len() && matches_any(sels, element_path(path, i, items.len() as int))
                    ==> #[trigger] out[i] == redacted_value(red, items[i]),
            ContentV::TupleVariant(_, _, _, items) => redact_v(sels, path, v, red)
                matches ContentV::TupleVariant(_, _, _, out) && out.len() == items.len() && forall|i: int|
                0 <= i < items.len() && matches_any(sels, element_path(path, i, items.len() as int))
                    ==> #[trigger] out[i] == redacted_value(red, items[i]),
            _ => true,
        },
{
    lemma_redaction_reaches_every_match(sels, path, v, replacement(red));
}

/// A static redaction puts its value in place of every value it
/// matches: of the value at a matching path, and of each element of a
/// sequence, tuple, tuple struct or tuple variant at a matching index.
pub proof fn lemma_static_redaction_puts_its_value(
    sels: Seq<Seq<SegmentV>>,
    path: Seq<PathItemV>,
    v: ContentV,
    c: ContentV,
)
    ensures
        matches_any(sels, path) ==> redact_v(sels, path, v, RedactionV::Static(c)) == c,
        !matches_any(sels, path) ==> match v {
            ContentV::Sequence(items) | ContentV::Tuple(items) | ContentV::TupleStruct(_, items)
            | ContentV::TupleVariant(_, _, _, items) => forall|i: int|
                0 <= i < items.len() && matches_any(sels, element_path(path, i, items.len() as int))
                    ==> #[trigger] redact_v(
                    sels,
                    element_path(path, i, items.len() as int),
                    items[i],
                    RedactionV::Static(c),
                ) == c,
            _ => true,
        },
        redacted_value(RedactionV::Static(c), v) == c,
{
}

} // verus!
