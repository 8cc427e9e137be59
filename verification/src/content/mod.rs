//! A generic `Content` type that holds runtime typed data, modelled after
//! serde's data model, and its mathematical view `ContentV`.
use vstd::prelude::*;

pub mod json;
pub mod yaml;
pub mod hashmap;
pub mod order;
pub mod same;

verus! {

broadcast use vstd::std_specs::vec::group_vec_axioms;

/// An error in reading content.
#[derive(Debug)]
pub enum Error {
    /// The YAML of the named file could not be read.
    FailedParsingYaml(String),
    UnexpectedDataType,
    MissingField,
    /// A map read as a struct has a key that is not a string.
    InvalidStructField(Content),
    /// The named file could not be read or written, for the given reason.
    FileIo(String, String),
}

/// A 32-bit float as the logic reads it: its bits and its decimal
/// rendering.
#[derive(Debug)]
pub struct Float32 {
    pub bits: u32,
    pub display: String,
}

/// A 64-bit float as the logic reads it: its bits and its decimal
/// rendering.
#[derive(Debug)]
pub struct Float64 {
    pub bits: u64,
    pub display: String,
}

/// Represents variable typed content.
#[derive(Debug)]
pub enum Content {
    Bool(bool),
    U8(u8),
    U16(u16),
    U32(u32),
    U64(u64),
    U128(u128),
    I8(i8),
    I16(i16),
    I32(i32),
    I64(i64),
    I128(i128),
    F32(Float32),
    F64(Float64),
    Char(char),
    String(String),
    Bytes(Vec<u8>),
    Nothing,
    Wrapped(Box<Content>),
    Unit,
    UnitStruct(String),
    UnitVariant(String, u32, String),
    NewtypeStruct(String, Box<Content>),
    NewtypeVariant(String, u32, String, Box<Content>),
    Sequence(Vec<Content>),
    Tuple(Vec<Content>),
    TupleStruct(String, Vec<Content>),
    TupleVariant(String, u32, String, Vec<Content>),
    Mapping(Vec<(Content, Content)>),
    Struct(String, Vec<(String, Content)>),
    StructVariant(String, u32, String, Vec<(String, Content)>),
}

/// The view of a float: its bits and the characters of its rendering.
pub struct FloatV {
    pub bits: u64,
    pub display: Seq<char>,
}

/// The mathematical value of a `Content`.
pub enum ContentV {
    Bool(bool),
    U8(u8),
    U16(u16),
    U32(u32),
    U64(u64),
    U128(u128),
    I8(i8),
    I16(i16),
    I32(i32),
    I64(i64),
    I128(i128),
    F32(FloatV),
    F64(FloatV),
    Char(char),
    String(Seq<char>),
    Bytes(Seq<u8>),
    Nothing,
    Wrapped(Box<ContentV>),
    Unit,
    UnitStruct(Seq<char>),
    UnitVariant(Seq<char>, u32, Seq<char>),
    NewtypeStruct(Seq<char>, Box<ContentV>),
    NewtypeVariant(Seq<char>, u32, Seq<char>, Box<ContentV>),
    Sequence(Seq<ContentV>),
    Tuple(Seq<ContentV>),
    TupleStruct(Seq<char>, Seq<ContentV>),
    TupleVariant(Seq<char>, u32, Seq<char>, Seq<ContentV>),
    Mapping(Seq<(ContentV, ContentV)>),
    Struct(Seq<char>, Seq<(Seq<char>, ContentV)>),
    StructVariant(Seq<char>, u32, Seq<char>, Seq<(Seq<char>, ContentV)>),
}

/// The view of a content value.
pub open spec fn content_view(c: Content) -> ContentV
    decreases c, 0nat,
{
    match c {
        Content::Bool(b) => ContentV::Bool(b),
        Content::U8(n) => ContentV::U8(n),
        Content::U16(n) => ContentV::U16(n),
        Content::U32(n) => ContentV::U32(n),
        Content::U64(n) => ContentV::U64(n),
        Content::U128(n) => ContentV::U128(n),
        Content::I8(n) => ContentV::I8(n),
        Content::I16(n) => ContentV::I16(n),
        Content::I32(n) => ContentV::I32(n),
        Content::I64(n) => ContentV::I64(n),
        Content::I128(n) => ContentV::I128(n),
        Content::F32(f) => ContentV::F32(FloatV { bits: f.bits as u64, display: f.display@ }),
        Content::F64(f) => ContentV::F64(FloatV { bits: f.bits, display: f.display@ }),
        Content::Char(ch) => ContentV::Char(ch),
        Content::String(s) => ContentV::String(s@),
        Content::Bytes(b) => ContentV::Bytes(b@),
        Content::Nothing => ContentV::Nothing,
        Content::Wrapped(b) => ContentV::Wrapped(Box::new(content_view(*b))),
        Content::Unit => ContentV::Unit,
        Content::UnitStruct(n) => ContentV::UnitStruct(n@),
        Content::UnitVariant(n, i, v) => ContentV::UnitVariant(n@, i, v@),
        Content::NewtypeStruct(n, b) => ContentV::NewtypeStruct(n@, Box::new(content_view(*b))),
        Content::NewtypeVariant(n, i, v, b) => ContentV::NewtypeVariant(
            n@,
            i,
            v@,
            Box::new(content_view(*b)),
        ),
        Content::Sequence(items) => ContentV::Sequence(content_views(items@)),
        Content::Tuple(items) => ContentV::Tuple(content_views(items@)),
        Content::TupleStruct(n, items) => ContentV::TupleStruct(n@, content_views(items@)),
        Content::TupleVariant(n, i, v, items) => ContentV::TupleVariant(
            n@,
            i,
            v@,
            content_views(items@),
        ),
        Content::Mapping(entries) => ContentV::Mapping(entry_views(entries@)),
        Content::Struct(n, fields) => ContentV::Struct(n@, field_views(fields@)),
        Content::StructVariant(n, i, v, fields) => ContentV::StructVariant(
            n@,
            i,
            v@,
            field_views(fields@),
        ),
    }
}

/// The views of a sequence of contents.
pub open spec fn content_views(s: Seq<Content>) -> Seq<ContentV>
    decreases s, s.len(),
{
    if s.len() == 0 {
        Seq::empty()
    } else {
        content_views(s.drop_last()).push(content_view(s.last()))
    }
}

/// The views of a sequence of map entries.
pub open spec fn entry_views(s: Seq<(Content, Content)>) -> Seq<(ContentV, ContentV)>
    decreases s, s.len(),
{
    if s.len() == 0 {
        Seq::empty()
    } else {
        let e = s.last();
        proof {
            assert(decreases_to!(s => s[s.len() - 1]));
        }
        entry_views(s.drop_last()).push((content_view(e.0), content_view(e.1)))
    }
}

/// The views of a sequence of struct fields.
pub open spec fn field_views(s: Seq<(String, Content)>) -> Seq<(Seq<char>, ContentV)>
    decreases s, s.len(),
{
    if s.len() == 0 {
        Seq::empty()
    } else {
        let e = s.last();
        proof {
            assert(decreases_to!(s => s[s.len() - 1]));
        }
        field_views(s.drop_last()).push((e.0@, content_view(e.1)))
    }
}

impl View for Content {
    type V = ContentV;

    open spec fn view(&self) -> ContentV {
        content_view(*self)
    }
}

/// A value as it reads back once written out: a struct comes back as a
/// map from its field names, as strings, to its field values, and so does
/// each struct held in the field of a struct.
pub open spec fn struct_as_map(c: ContentV) -> ContentV
    decreases c, 0nat,
{
    match c {
        ContentV::Struct(_, fs) => ContentV::Mapping(fields_as_entries(fs)),
        _ => c,
    }
}

/// Struct fields as map entries keyed by their names.
pub open spec fn fields_as_entries(fs: Seq<(Seq<char>, ContentV)>) -> Seq<(ContentV, ContentV)>
    decreases fs, fs.len(),
{
    if fs.len() == 0 {
        Seq::empty()
    } else {
        let f = fs.last();
        proof {
            assert(decreases_to!(fs => fs[fs.len() - 1]));
        }
        fields_as_entries(fs.drop_last()).push((ContentV::String(f.0), struct_as_map(f.1)))
    }
}

/// Struct fields as map entries, entry by entry.
pub proof fn lemma_fields_as_entries(fs: Seq<(Seq<char>, ContentV)>)
    ensures
        fields_as_entries(fs).len() == fs.len(),
        forall|i: int|
            0 <= i < fs.len() ==> #[trigger] fields_as_entries(fs)[i] == (
                ContentV::String(fs[i].0),
                struct_as_map(fs[i].1),
            ),
    decreases fs.len(),
{
    if fs.len() > 0 {
        lemma_fields_as_entries(fs.drop_last());
    }
}

/// The views of a sequence of contents, element by element.
pub proof fn lemma_content_views(s: Seq<Content>)
    ensures
        content_views(s).len() == s.len(),
        forall|i: int| 0 <= i < s.len() ==> #[trigger] content_views(s)[i] == content_view(s[i]),
    decreases s.len(),
{
    if s.len() > 0 {
        lemma_content_views(s.drop_last());
    }
}

/// The views of a sequence of map entries, entry by entry.
pub proof fn lemma_entry_views(s: Seq<(Content, Content)>)
    ensures
        entry_views(s).len() == s.len(),
        forall|i: int|
            0 <= i < s.len() ==> #[trigger] entry_views(s)[i] == (
                content_view(s[i].0),
                content_view(s[i].1),
            ),
    decreases s.len(),
{
    if s.len() > 0 {
        lemma_entry_views(s.drop_last());
    }
}

/// The views of a sequence of struct fields, field by field.
pub proof fn lemma_field_views(s: Seq<(String, Content)>)
    ensures
        field_views(s).len() == s.len(),
        forall|i: int|
            0 <= i < s.len() ==> #[trigger] field_views(s)[i] == (s[i].0@, content_view(s[i].1)),
    decreases s.len(),
{
    if s.len() > 0 {
        lemma_field_views(s.drop_last());
    }
}

/// The innermost value of a chain of `Wrapped`, newtype struct and newtype
/// variant wrappers.
pub open spec fn resolve(v: ContentV) -> ContentV
    decreases v,
{
    match v {
        ContentV::Wrapped(b) => resolve(*b),
        ContentV::NewtypeStruct(_, b) => resolve(*b),
        ContentV::NewtypeVariant(_, _, _, b) => resolve(*b),
        _ => v,
    }
}

/// Resolving twice is resolving once.
pub proof fn lemma_resolve_idempotent(v: ContentV)
    ensures
        resolve(resolve(v)) == resolve(v),
    decreases v,
{
    match v {
        ContentV::Wrapped(b) => lemma_resolve_idempotent(*b),
        ContentV::NewtypeStruct(_, b) => lemma_resolve_idempotent(*b),
        ContentV::NewtypeVariant(_, _, _, b) => lemma_resolve_idempotent(*b),
        _ => {},
    }
}

/// The string a value holds, once resolved.
pub open spec fn str_of(v: ContentV) -> Option<Seq<char>> {
    match resolve(v) {
        ContentV::String(s) => Some(s),
        _ => None,
    }
}

/// The bytes a value holds, once resolved.
pub open spec fn bytes_of(v: ContentV) -> Option<Seq<u8>> {
    match resolve(v) {
        ContentV::Bytes(b) => Some(b),
        _ => None,
    }
}

/// The elements of a sequence, tuple or tuple variant, once resolved.
pub open spec fn slice_of(v: ContentV) -> Option<Seq<ContentV>> {
    match resolve(v) {
        ContentV::Sequence(items) => Some(items),
        ContentV::Tuple(items) => Some(items),
        ContentV::TupleVariant(_, _, _, items) => Some(items),
        _ => None,
    }
}

/// Whether a value resolves to nothing or the unit value.
pub open spec fn is_nil_of(v: ContentV) -> bool {
    resolve(v) is Nothing || resolve(v) is Unit
}

/// The boolean a value holds, once resolved.
pub open spec fn bool_of(v: ContentV) -> Option<bool> {
    match resolve(v) {
        ContentV::Bool(b) => Some(b),
        _ => None,
    }
}

/// The value as a `u64`, where it is an integer in that range.
pub open spec fn u64_of(v: ContentV) -> Option<u64> {
    match resolve(v) {
        ContentV::U8(n) => Some(n as u64),
        ContentV::U16(n) => Some(n as u64),
        ContentV::U32(n) => Some(n as u64),
        ContentV::U64(n) => Some(n),
        ContentV::U128(n) => if n <= u64::MAX {
            Some(n as u64)
        } else {
            None
        },
        ContentV::I8(n) => if n >= 0 {
            Some(n as u64)
        } else {
            None
        },
        ContentV::I16(n) => if n >= 0 {
            Some(n as u64)
        } else {
            None
        },
        ContentV::I32(n) => if n >= 0 {
            Some(n as u64)
        } else {
            None
        },
        ContentV::I64(n) => if n >= 0 {
            Some(n as u64)
        } else {
            None
        },
        ContentV::I128(n) => if 0 <= n <= u64::MAX {
            Some(n as u64)
        } else {
            None
        },
        _ => None,
    }
}

/// The value as a `u128`, where it is a non-negative integer.
pub open spec fn u128_of(v: ContentV) -> Option<u128> {
    match resolve(v) {
        ContentV::U128(n) => Some(n),
        ContentV::I128(n) => if n >= 0 {
            Some(n as u128)
        } else {
            None
        },
        _ => match u64_of(v) {
            Some(n) => Some(n as u128),
            None => None,
        },
    }
}

/// The value as an `i64`.  An unsigned 64-bit value is read back from its
/// two's complement bits, so that one above `i64::MAX` reads as negative; a
/// 128-bit value is taken where its two's complement bits sign-extend an
/// `i64`.
pub open spec fn i64_of(v: ContentV) -> Option<i64> {
    match resolve(v) {
        ContentV::U8(n) => Some(n as i64),
        ContentV::U16(n) => Some(n as i64),
        ContentV::U32(n) => Some(n as i64),
        ContentV::U64(n) => if n <= i64::MAX {
            Some(n as i64)
        } else {
            Some((n - 0x1_0000_0000_0000_0000int) as i64)
        },
        ContentV::U128(n) => if n <= i64::MAX {
            Some(n as i64)
        } else if n >= 0x1_0000_0000_0000_0000_0000_0000_0000_0000int - 0x8000_0000_0000_0000int {
            Some((n - 0x1_0000_0000_0000_0000_0000_0000_0000_0000int) as i64)
        } else {
            None
        },
        ContentV::I8(n) => Some(n as i64),
        ContentV::I16(n) => Some(n as i64),
        ContentV::I32(n) => Some(n as i64),
        ContentV::I64(n) => Some(n),
        ContentV::I128(n) => if i64::MIN <= n <= i64::MAX {
            Some(n as i64)
        } else {
            None
        },
        _ => None,
    }
}

/// The value as an `i128`.  An unsigned 128-bit value is read back from its
/// two's complement bits.
pub open spec fn i128_of(v: ContentV) -> Option<i128> {
    match resolve(v) {
        ContentV::U128(n) => if n <= i128::MAX {
            Some(n as i128)
        } else {
            Some((n - 0x1_0000_0000_0000_0000_0000_0000_0000_0000int) as i128)
        },
        ContentV::I128(n) => Some(n),
        _ => match i64_of(v) {
            Some(n) => Some(n as i128),
            None => None,
        },
    }
}

/// Copies of each item, in order.
fn clone_items(items: &Vec<Content>) -> (r: Vec<Content>)
    ensures
        content_views(r@) == content_views(items@),
    decreases items, 0nat,
{
    let mut out: Vec<Content> = Vec::new();
    let mut i: usize = 0;
    proof {
        lemma_content_views(items@);
    }
    while i < items.len()
        invariant
            i <= items@.len(),
            out@.len() == i,
            content_views(items@).len() == items@.len(),
            forall|j: int| 0 <= j < items@.len() ==> #[trigger] content_views(items@)[j] == items@[j]@,
            forall|j: int| 0 <= j < i ==> #[trigger] out@[j]@ == items@[j]@,
        decreases items.len() - i,
    {
        proof {
            assert(decreases_to!(items => items@[i as int]));
        }
        let c = items[i].clone();
        out.push(c);
        i += 1;
    }
    proof {
        lemma_content_views(out@);
        assert forall|j: int| 0 <= j < items@.len() implies content_views(out@)[j] == content_views(
            items@,
        )[j] by {
            assert(out@[j]@ == items@[j]@);
        }
    }
    assert(content_views(out@) =~= content_views(items@));
    out
}

/// Copies of each map entry, in order.
fn clone_entries(entries: &Vec<(Content, Content)>) -> (r: Vec<(Content, Content)>)
    ensures
        entry_views(r@) == entry_views(entries@),
    decreases entries, 0nat,
{
    let mut out: Vec<(Content, Content)> = Vec::new();
    let mut i: usize = 0;
    proof {
        lemma_entry_views(entries@);
    }
    while i < entries.len()
        invariant
            i <= entries@.len(),
            out@.len() == i,
            forall|j: int|
                0 <= j < i ==> #[trigger] out@[j].0@ == entries@[j].0@ && out@[j].1@
                    == entries@[j].1@,
        decreases entries.len() - i,
    {
        proof {
            assert(decreases_to!(entries => entries@[i as int]));
            assert(decreases_to!(entries@[i as int] => entries@[i as int].0));
            assert(decreases_to!(entries@[i as int] => entries@[i as int].1));
        }
        let e = &entries[i];
        let k = e.0.clone();
        let v = e.1.clone();
        out.push((k, v));
        i += 1;
    }
    proof {
        lemma_entry_views(out@);
        assert forall|j: int| 0 <= j < entries@.len() implies entry_views(out@)[j] == entry_views(
            entries@,
        )[j] by {
            assert(out@[j].0@ == entries@[j].0@ && out@[j].1@ == entries@[j].1@);
        }
    }
    assert(entry_views(out@) =~= entry_views(entries@));
    out
}

/// Copies of each struct field, in order.
fn clone_fields(fields: &Vec<(String, Content)>) -> (r: Vec<(String, Content)>)
    ensures
        field_views(r@) == field_views(fields@),
    decreases fields, 0nat,
{
    let mut out: Vec<(String, Content)> = Vec::new();
    let mut i: usize = 0;
    proof {
        lemma_field_views(fields@);
    }
    while i < fields.len()
        invariant
            i <= fields@.len(),
            out@.len() == i,
            forall|j: int|
                0 <= j < i ==> #[trigger] out@[j].0@ == fields@[j].0@ && out@[j].1@
                    == fields@[j].1@,
        decreases fields.len() - i,
    {
        proof {
            assert(decreases_to!(fields => fields@[i as int]));
            assert(decreases_to!(fields@[i as int] => fields@[i as int].1));
        }
        let f = &fields[i];
        let name = f.0.clone();
        let v = f.1.clone();
        out.push((name, v));
        i += 1;
    }
    proof {
        lemma_field_views(out@);
    }
    assert(field_views(out@) =~= field_views(fields@));
    out
}

/// A copy of the bytes.
fn clone_bytes(bytes: &Vec<u8>) -> (r: Vec<u8>)
    ensures
        r@ == bytes@,
{
    let mut out: Vec<u8> = Vec::new();
    let mut i: usize = 0;
    while i < bytes.len()
        invariant
            i <= bytes@.len(),
            out@ == bytes@.take(i as int),
        decreases bytes.len() - i,
    {
        out.push(bytes[i]);
        assert(bytes@.take(i + 1) =~= bytes@.take(i as int).push(bytes@[i as int]));
        i += 1;
    }
    assert(bytes@.take(bytes@.len() as int) =~= bytes@);
    out
}

impl Clone for Float32 {
    fn clone(&self) -> (r: Self)
        ensures
            r.bits == self.bits,
            r.display@ == self.display@,
    {
        Float32 { bits: self.bits, display: self.display.clone() }
    }
}

impl Clone for Float64 {
    fn clone(&self) -> (r: Self)
        ensures
            r.bits == self.bits,
            r.display@ == self.display@,
    {
        Float64 { bits: self.bits, display: self.display.clone() }
    }
}

impl Clone for Content {
    /// A deep copy: the copy has the same view.
    fn clone(&self) -> (r: Self)
        ensures
            r@ == self@,
        decreases self, 1nat,
    {
        match self {
            Content::Bool(b) => Content::Bool(*b),
            Content::U8(n) => Content::U8(*n),
            Content::U16(n) => Content::U16(*n),
            Content::U32(n) => Content::U32(*n),
            Content::U64(n) => Content::U64(*n),
            Content::U128(n) => Content::U128(*n),
            Content::I8(n) => Content::I8(*n),
            Content::I16(n) => Content::I16(*n),
            Content::I32(n) => Content::I32(*n),
            Content::I64(n) => Content::I64(*n),
            Content::I128(n) => Content::I128(*n),
            Content::F32(f) => Content::F32(f.clone()),
            Content::F64(f) => Content::F64(f.clone()),
            Content::Char(c) => Content::Char(*c),
            Content::String(s) => Content::String(s.clone()),
            Content::Bytes(b) => Content::Bytes(clone_bytes(b)),
            Content::Nothing => Content::Nothing,
            Content::Wrapped(inner) => Content::Wrapped(Box::new((**inner).clone())),
            Content::Unit => Content::Unit,
            Content::UnitStruct(n) => Content::UnitStruct(n.clone()),
            Content::UnitVariant(n, i, v) => Content::UnitVariant(n.clone(), *i, v.clone()),
            Content::NewtypeStruct(n, inner) => Content::NewtypeStruct(
                n.clone(),
                Box::new((**inner).clone()),
            ),
            Content::NewtypeVariant(n, i, v, inner) => Content::NewtypeVariant(
                n.clone(),
                *i,
                v.clone(),
                Box::new((**inner).clone()),
            ),
            Content::Sequence(items) => Content::Sequence(clone_items(items)),
            Content::Tuple(items) => Content::Tuple(clone_items(items)),
            Content::TupleStruct(n, items) => Content::TupleStruct(n.clone(), clone_items(items)),
            Content::TupleVariant(n, i, v, items) => Content::TupleVariant(
                n.clone(),
                *i,
                v.clone(),
                clone_items(items),
            ),
            Content::Mapping(entries) => Content::Mapping(clone_entries(entries)),
            Content::Struct(n, fields) => Content::Struct(n.clone(), clone_fields(fields)),
            Content::StructVariant(n, i, v, fields) => Content::StructVariant(
                n.clone(),
                *i,
                v.clone(),
                clone_fields(fields),
            ),
        }
    }
}

impl Content {
    /// Resolves the innermost content in a chain of wrapped content.
    pub fn resolve_inner(&self) -> (r: &Content)
        ensures
            r@ == resolve(self@),
        decreases self,
    {
        match self {
            Content::Wrapped(v) => v.resolve_inner(),
            Content::NewtypeStruct(_, v) => v.resolve_inner(),
            Content::NewtypeVariant(_, _, _, v) => v.resolve_inner(),
            other => other,
        }
    }

    /// Returns the value as string.
    pub fn as_str(&self) -> (r: Option<&str>)
        ensures
            match r {
                Some(s) => str_of(self@) == Some(s@),
                None => str_of(self@) is None,
            },
    {
        match self.resolve_inner() {
            Content::String(s) => Some(s.as_str()),
            _ => None,
        }
    }

    /// Returns the value as bytes.
    pub fn as_bytes(&self) -> (r: Option<&[u8]>)
        ensures
            match r {
                Some(b) => bytes_of(self@) == Some(b@),
                None => bytes_of(self@) is None,
            },
    {
        match self.resolve_inner() {
            Content::Bytes(b) => Some(b.as_slice()),
            _ => None,
        }
    }

    /// Returns the value as a slice of content values.
    pub fn as_slice(&self) -> (r: Option<&[Content]>)
        ensures
            match r {
                Some(items) => slice_of(self@) == Some(content_views(items@)),
                None => slice_of(self@) is None,
            },
    {
        match self.resolve_inner() {
            Content::Sequence(v) => Some(v.as_slice()),
            Content::Tuple(v) => Some(v.as_slice()),
            Content::TupleVariant(_, _, _, v) => Some(v.as_slice()),
            _ => None,
        }
    }

    /// Returns true if the value is nil.
    pub fn is_nil(&self) -> (r: bool)
        ensures
            r == is_nil_of(self@),
    {
        match self.resolve_inner() {
            Content::Nothing => true,
            Content::Unit => true,
            _ => false,
        }
    }

    /// Returns the value as bool.
    pub fn as_bool(&self) -> (r: Option<bool>)
        ensures
            r == bool_of(self@),
    {
        match self.resolve_inner() {
            Content::Bool(b) => Some(*b),
            _ => None,
        }
    }

    /// Returns the value as u64.
    pub fn as_u64(&self) -> (r: Option<u64>)
        ensures
            r == u64_of(self@),
    {
        match self.resolve_inner() {
            Content::U8(v) => Some(*v as u64),
            Content::U16(v) => Some(*v as u64),
            Content::U32(v) => Some(*v as u64),
            Content::U64(v) => Some(*v),
            Content::U128(v) => if *v <= u64::MAX as u128 {
                Some(*v as u64)
            } else {
                None
            },
            Content::I8(v) => if *v >= 0 {
                Some(*v as u64)
            } else {
                None
            },
            Content::I16(v) => if *v >= 0 {
                Some(*v as u64)
            } else {
                None
            },
            Content::I32(v) => if *v >= 0 {
                Some(*v as u64)
            } else {
                None
            },
            Content::I64(v) => if *v >= 0 {
                Some(*v as u64)
            } else {
                None
            },
            Content::I128(v) => if 0 <= *v && *v <= u64::MAX as i128 {
                Some(*v as u64)
            } else {
                None
            },
            _ => None,
        }
    }

    /// Returns the value as u128.
    pub fn as_u128(&self) -> (r: Option<u128>)
        ensures
            r == u128_of(self@),
    {
        match self.resolve_inner() {
            Content::U128(v) => Some(*v),
            Content::I128(v) => if *v >= 0 {
                Some(*v as u128)
            } else {
                None
            },
            _ => match self.as_u64() {
                Some(n) => Some(n as u128),
                None => None,
            },
        }
    }

    /// Returns the value as i64.
    pub fn as_i64(&self) -> (r: Option<i64>)
        ensures
            r == i64_of(self@),
    {
        match self.resolve_inner() {
            Content::U8(v) => Some(*v as i64),
            Content::U16(v) => Some(*v as i64),
            Content::U32(v) => Some(*v as i64),
            Content::U64(v) => if *v <= i64::MAX as u64 {
                Some(*v as i64)
            } else {
                Some(-((u64::MAX - *v) as i64) - 1)
            },
            Content::U128(v) => if *v <= i64::MAX as u128 {
                Some(*v as i64)
            } else if *v >= u128::MAX - (i64::MAX as u128) {
                Some(-((u128::MAX - *v) as i64) - 1)
            } else {
                None
            },
            Content::I8(v) => Some(*v as i64),
            Content::I16(v) => Some(*v as i64),
            Content::I32(v) => Some(*v as i64),
            Content::I64(v) => Some(*v),
            Content::I128(v) => if i64::MIN as i128 <= *v && *v <= i64::MAX as i128 {
                Some(*v as i64)
            } else {
                None
            },
            _ => None,
        }
    }

    /// Returns the value as i128.
    pub fn as_i128(&self) -> (r: Option<i128>)
        ensures
            r == i128_of(self@),
    {
        match self.resolve_inner() {
            Content::U128(v) => if *v <= i128::MAX as u128 {
                Some(*v as i128)
            } else {
                Some(-((u128::MAX - *v) as i128) - 1)
            },
            Content::I128(v) => Some(*v),
            _ => match self.as_i64() {
                Some(n) => Some(n as i128),
                None => None,
            },
        }
    }
}

} // verus!
