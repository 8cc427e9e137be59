//! Whether two values are the same value.
use vstd::prelude::*;

use crate::content::{
    Content, content_views, entry_views, field_views, lemma_content_views, lemma_entry_views,
    lemma_field_views,
};
use crate::env::str_eq;

verus! {

broadcast use vstd::std_specs::vec::group_vec_axioms;

fn bytes_equal(a: &Vec<u8>, b: &Vec<u8>) -> (r: bool)
    ensures
        r == (a@ == b@),
{
    if a.len() != b.len() {
        return false;
    }
    let mut i: usize = 0;
    while i < a.len()
        invariant
            a@.len() == b@.len(),
            i <= a@.len(),
            forall|k: int| 0 <= k < i ==> a@[k] == b@[k],
        decreases a.len() - i,
    {
        if a[i] != b[i] {
            return false;
        }
        i = i + 1;
    }
    assert(a@ =~= b@);
    true
}

/// Whether two values have the same view: the same variant holding the
/// same values, floats compared by their bits and rendering.
#[verifier::rlimit(40)]
pub fn content_equal(a: &Content, b: &Content) -> (r: bool)
    ensures
        r == (a@ == b@),
    decreases *a, 0nat,
{
    match (a, b) {
        (Content::Bool(x), Content::Bool(y)) => *x == *y,
        (Content::U8(x), Content::U8(y)) => *x == *y,
        (Content::U16(x), Content::U16(y)) => *x == *y,
        (Content::U32(x), Content::U32(y)) => *x == *y,
        (Content::U64(x), Content::U64(y)) => *x == *y,
        (Content::U128(x), Content::U128(y)) => *x == *y,
        (Content::I8(x), Content::I8(y)) => *x == *y,
        (Content::I16(x), Content::I16(y)) => *x == *y,
        (Content::I32(x), Content::I32(y)) => *x == *y,
        (Content::I64(x), Content::I64(y)) => *x == *y,
        (Content::I128(x), Content::I128(y)) => *x == *y,
        (Content::F32(x), Content::F32(y)) => x.bits == y.bits && str_eq(&x.display, &y.display),
        (Content::F64(x), Content::F64(y)) => x.bits == y.bits && str_eq(&x.display, &y.display),
        (Content::Char(x), Content::Char(y)) => *x == *y,
        (Content::String(x), Content::String(y)) => str_eq(x, y),
        (Content::Bytes(x), Content::Bytes(y)) => bytes_equal(x, y),
        (Content::Nothing, Content::Nothing) => true,
        (Content::Wrapped(x), Content::Wrapped(y)) => content_equal(x, y),
        (Content::Unit, Content::Unit) => true,
        (Content::UnitStruct(x), Content::UnitStruct(y)) => str_eq(x, y),
        (Content::UnitVariant(n, i, v), Content::UnitVariant(m, j, w)) => str_eq(n, m) && *i == *j
            && str_eq(v, w),
        (Content::NewtypeStruct(n, x), Content::NewtypeStruct(m, y)) => str_eq(n, m)
            && content_equal(x, y),
        (Content::NewtypeVariant(n, i, v, x), Content::NewtypeVariant(m, j, w, y)) => str_eq(n, m)
            && *i == *j && str_eq(v, w) && content_equal(x, y),
        (Content::Sequence(x), Content::Sequence(y)) => contents_equal(x, y),
        (Content::Tuple(x), Content::Tuple(y)) => contents_equal(x, y),
        (Content::TupleStruct(n, x), Content::TupleStruct(m, y)) => str_eq(n, m) && contents_equal(
            x,
            y,
        ),
        (Content::TupleVariant(n, i, v, x), Content::TupleVariant(m, j, w, y)) => str_eq(n, m) && *i
            == *j && str_eq(v, w) && contents_equal(x, y),
        (Content::Mapping(x), Content::Mapping(y)) => entries_equal(x, y),
        (Content::Struct(n, x), Content::Struct(m, y)) => str_eq(n, m) && fields_equal(x, y),
        (Content::StructVariant(n, i, v, x), Content::StructVariant(m, j, w, y)) => str_eq(n, m)
            && *i == *j && str_eq(v, w) && fields_equal(x, y),
        _ => false,
    }
}

/// Whether two sequences of values have the same views.
pub fn contents_equal(a: &Vec<Content>, b: &Vec<Content>) -> (r: bool)
    ensures
        r == (content_views(a@) == content_views(b@)),
    decreases *a, 1nat,
{
    proof {
        lemma_content_views(a@);
        lemma_content_views(b@);
    }
    if a.len() != b.len() {
        return false;
    }
    let mut i: usize = 0;
    while i < a.len()
        invariant
            a@.len() == b@.len(),
            i <= a@.len(),
            content_views(a@).len() == a@.len(),
            content_views(b@).len() == b@.len(),
            forall|k: int| 0 <= k < a@.len() ==> #[trigger] content_views(a@)[k] == a@[k]@,
            forall|k: int| 0 <= k < b@.len() ==> #[trigger] content_views(b@)[k] == b@[k]@,
            forall|k: int| 0 <= k < i ==> a@[k]@ == b@[k]@,
        decreases a.len() - i,
    {
        proof {
            assert(decreases_to!(*a => a@));
            assert(decreases_to!(a@ => a@[i as int]));
        }
        if !content_equal(&a[i], &b[i]) {
            assert(content_views(a@)[i as int] != content_views(b@)[i as int]);
            return false;
        }
        i = i + 1;
    }
    assert(content_views(a@) =~= content_views(b@));
    true
}

/// Whether two sequences of map entries have the same views.
pub fn entries_equal(a: &Vec<(Content, Content)>, b: &Vec<(Content, Content)>) -> (r: bool)
    ensures
        r == (entry_views(a@) == entry_views(b@)),
    decreases *a, 1nat,
{
    proof {
        lemma_entry_views(a@);
        lemma_entry_views(b@);
    }
    if a.len() != b.len() {
        return false;
    }
    let mut i: usize = 0;
    while i < a.len()
        invariant
            a@.len() == b@.len(),
            i <= a@.len(),
            entry_views(a@).len() == a@.len(),
            entry_views(b@).len() == b@.len(),
            forall|k: int|
                0 <= k < a@.len() ==> #[trigger] entry_views(a@)[k] == (a@[k].0@, a@[k].1@),
            forall|k: int|
                0 <= k < b@.len() ==> #[trigger] entry_views(b@)[k] == (b@[k].0@, b@[k].1@),
            forall|k: int| 0 <= k < i ==> a@[k].0@ == b@[k].0@ && a@[k].1@ == b@[k].1@,
        decreases a.len() - i,
    {
        proof {
            assert(decreases_to!(*a => a@));
            assert(decreases_to!(a@ => a@[i as int]));
            assert(decreases_to!(a@[i as int] => a@[i as int].0));
            assert(decreases_to!(a@[i as int] => a@[i as int].1));
        }
        let ea = &a[i];
        let eb = &b[i];
        if !content_equal(&ea.0, &eb.0) || !content_equal(&ea.1, &eb.1) {
            assert(entry_views(a@)[i as int] != entry_views(b@)[i as int]);
            return false;
        }
        i = i + 1;
    }
    assert(entry_views(a@) =~= entry_views(b@));
    true
}

/// Whether two sequences of struct fields have the same views.
pub fn fields_equal(a: &Vec<(String, Content)>, b: &Vec<(String, Content)>) -> (r: bool)
    ensures
        r == (field_views(a@) == field_views(b@)),
    decreases *a, 1nat,
{
    proof {
        lemma_field_views(a@);
        lemma_field_views(b@);
    }
    if a.len() != b.len() {
        return false;
    }
    let mut i: usize = 0;
    while i < a.len()
        invariant
            a@.len() == b@.len(),
            i <= a@.len(),
            field_views(a@).len() == a@.len(),
            field_views(b@).len() == b@.len(),
            forall|k: int| 0 <= k < a@.len() ==> #[trigger] field_views(a@)[k] == (a@[k].0@, a@[k].1@),
            forall|k: int| 0 <= k < b@.len() ==> #[trigger] field_views(b@)[k] == (b@[k].0@, b@[k].1@),
            forall|k: int| 0 <= k < i ==> a@[k].0@ == b@[k].0@ && a@[k].1@ == b@[k].1@,
        decreases a.len() - i,
    {
        proof {
            assert(decreases_to!(*a => a@));
            assert(decreases_to!(a@ => a@[i as int]));
            assert(decreases_to!(a@[i as int] => a@[i as int].1));
        }
        let fa = &a[i];
        let fb = &b[i];
        if !str_eq(&fa.0, &fb.0) || !content_equal(&fa.1, &fb.1) {
            assert(field_views(a@)[i as int] != field_views(b@)[i as int]);
            return false;
        }
        i = i + 1;
    }
    assert(field_views(a@) =~= field_views(b@));
    true
}

} // verus!
