//! YAML rendering of `Content`: the content is translated into a YAML
//! value, which the `yaml-rust` emitter writes out.
use vstd::prelude::*;

use crate::content::json::dec_int;
use crate::content::{
    Content, ContentV, Error, content_views, entry_views, field_views, lemma_content_views,
    lemma_entry_views, lemma_field_views,
};
use crate::text::{chars_of, string_from};

verus! {

broadcast use vstd::std_specs::vec::group_vec_axioms;

/// A YAML value, as the `yaml-rust` crate models one; a hash keeps its
/// entries in order.
#[derive(Debug)]
pub enum YamlValue {
    Real(String),
    Integer(i64),
    String(String),
    Boolean(bool),
    Array(Vec<YamlValue>),
    Hash(Vec<(YamlValue, YamlValue)>),
    Alias(usize),
    Null,
    BadValue,
}

/// The view of a YAML value.
pub enum YamlV {
    Real(Seq<char>),
    Integer(i64),
    String(Seq<char>),
    Boolean(bool),
    Array(Seq<YamlV>),
    Hash(Seq<(YamlV, YamlV)>),
    Alias(usize),
    Null,
    BadValue,
}

/// The view of a YAML value.
pub open spec fn yaml_view(v: YamlValue) -> YamlV
    decreases v, 0nat,
{
    match v {
        YamlValue::Real(s) => YamlV::Real(s@),
        YamlValue::Integer(i) => YamlV::Integer(i),
        YamlValue::String(s) => YamlV::String(s@),
        YamlValue::Boolean(b) => YamlV::Boolean(b),
        YamlValue::Array(items) => YamlV::Array(yaml_views(items@)),
        YamlValue::Hash(pairs) => YamlV::Hash(yaml_pair_views(pairs@)),
        YamlValue::Alias(n) => YamlV::Alias(n),
        YamlValue::Null => YamlV::Null,
        YamlValue::BadValue => YamlV::BadValue,
    }
}

/// The views of a sequence of YAML values.
pub open spec fn yaml_views(s: Seq<YamlValue>) -> Seq<YamlV>
    decreases s, s.len(),
{
    if s.len() == 0 {
        Seq::empty()
    } else {
        yaml_views(s.drop_last()).push(yaml_view(s.last()))
    }
}

/// The views of a sequence of YAML hash entries.
pub open spec fn yaml_pair_views(s: Seq<(YamlValue, YamlValue)>) -> Seq<(YamlV, YamlV)>
    decreases s, s.len(),
{
    if s.len() == 0 {
        Seq::empty()
    } else {
        let e = s.last();
        proof {
            assert(decreases_to!(s => s[s.len() - 1]));
        }
        yaml_pair_views(s.drop_last()).push((yaml_view(e.0), yaml_view(e.1)))
    }
}

impl View for YamlValue {
    type V = YamlV;

    open spec fn view(&self) -> YamlV {
        yaml_view(*self)
    }
}

proof fn lemma_yaml_views(s: Seq<YamlValue>)
    ensures
        yaml_views(s).len() == s.len(),
        forall|i: int| 0 <= i < s.len() ==> #[trigger] yaml_views(s)[i] == yaml_view(s[i]),
    decreases s.len(),
{
    if s.len() > 0 {
        lemma_yaml_views(s.drop_last());
    }
}

proof fn lemma_yaml_pair_views(s: Seq<(YamlValue, YamlValue)>)
    ensures
        yaml_pair_views(s).len() == s.len(),
        forall|i: int|
            0 <= i < s.len() ==> #[trigger] yaml_pair_views(s)[i] == (
                yaml_view(s[i].0),
                yaml_view(s[i].1),
            ),
    decreases s.len(),
{
    if s.len() > 0 {
        lemma_yaml_pair_views(s.drop_last());
    }
}

// ---------------------------------------------------------------------
// Content to YAML
// ---------------------------------------------------------------------
/// The YAML value of a content value: integers that fit an `i64` are YAML
/// integers, wider ones and floats are reals written as text, enum variants
/// are hashes from the variant's name, structs are hashes from the field
/// names.
pub open spec fn yaml_of(c: ContentV) -> YamlV
    decreases c, 0nat,
{
    match c {
        ContentV::Bool(b) => YamlV::Boolean(b),
        ContentV::U8(n) => YamlV::Integer(n as i64),
        ContentV::U16(n) => YamlV::Integer(n as i64),
        ContentV::U32(n) => YamlV::Integer(n as i64),
        ContentV::U64(n) => YamlV::Real(dec_int(n as int)),
        ContentV::U128(n) => YamlV::Real(dec_int(n as int)),
        ContentV::I8(n) => YamlV::Integer(n as i64),
        ContentV::I16(n) => YamlV::Integer(n as i64),
        ContentV::I32(n) => YamlV::Integer(n as i64),
        ContentV::I64(n) => YamlV::Integer(n),
        ContentV::I128(n) => YamlV::Real(dec_int(n as int)),
        ContentV::F32(f) => YamlV::Real(f.display),
        ContentV::F64(f) => YamlV::Real(f.display),
        ContentV::Char(ch) => YamlV::String(seq![ch]),
        ContentV::String(s) => YamlV::String(s),
        ContentV::Bytes(bs) => YamlV::Array(byte_items(bs, bs.len())),
        ContentV::Nothing | ContentV::Unit | ContentV::UnitStruct(_) => YamlV::Null,
        ContentV::Wrapped(inner) => yaml_of(*inner),
        ContentV::UnitVariant(_, _, name) => YamlV::String(name),
        ContentV::NewtypeStruct(_, inner) => yaml_of(*inner),
        ContentV::NewtypeVariant(_, _, name, inner) => YamlV::Hash(
            seq![(YamlV::String(name), yaml_of(*inner))],
        ),
        ContentV::Sequence(items) => YamlV::Array(yaml_items(items, items.len())),
        ContentV::Tuple(items) => YamlV::Array(yaml_items(items, items.len())),
        ContentV::TupleStruct(_, items) => YamlV::Array(yaml_items(items, items.len())),
        ContentV::TupleVariant(_, _, name, items) => YamlV::Hash(
            seq![(YamlV::String(name), YamlV::Array(yaml_items(items, items.len())))],
        ),
        ContentV::Mapping(es) => YamlV::Hash(yaml_entries(es, es.len())),
        ContentV::Struct(_, fs) => YamlV::Hash(yaml_fields(fs, fs.len())),
        ContentV::StructVariant(_, _, name, fs) => YamlV::Hash(
            seq![(YamlV::String(name), YamlV::Hash(yaml_fields(fs, fs.len())))],
        ),
    }
}

/// The first `n` bytes as YAML integers.
pub open spec fn byte_items(bs: Seq<u8>, n: nat) -> Seq<YamlV>
    decreases n,
{
    if n == 0 || n > bs.len() {
        seq![]
    } else {
        byte_items(bs, (n - 1) as nat).push(YamlV::Integer(bs[n - 1] as i64))
    }
}

/// The YAML values of the first `n` items.
pub open spec fn yaml_items(items: Seq<ContentV>, n: nat) -> Seq<YamlV>
    decreases items, n,
{
    if n == 0 || n > items.len() {
        seq![]
    } else {
        yaml_items(items, (n - 1) as nat).push(yaml_of(items[n - 1]))
    }
}

/// The YAML entries of the first `n` map entries.
pub open spec fn yaml_entries(es: Seq<(ContentV, ContentV)>, n: nat) -> Seq<(YamlV, YamlV)>
    decreases es, n,
{
    if n == 0 || n > es.len() {
        seq![]
    } else {
        proof {
            assert(decreases_to!(es => es[n - 1]));
        }
        yaml_entries(es, (n - 1) as nat).push((yaml_of(es[n - 1].0), yaml_of(es[n - 1].1)))
    }
}

/// The YAML entries of the first `n` struct fields, keyed by their names.
pub open spec fn yaml_fields(fs: Seq<(Seq<char>, ContentV)>, n: nat) -> Seq<(YamlV, YamlV)>
    decreases fs, n,
{
    if n == 0 || n > fs.len() {
        seq![]
    } else {
        proof {
            assert(decreases_to!(fs => fs[n - 1]));
        }
        yaml_fields(fs, (n - 1) as nat).push((YamlV::String(fs[n - 1].0), yaml_of(fs[n - 1].1)))
    }
}

/// The YAML of a scalar holds the same value: a boolean stays that
/// boolean, an integer that fits 64 signed bits becomes the YAML integer
/// of the same number, a wider one or a `u64` is written as its decimal
/// digits, a string stays that string and a character becomes the string
/// of that character.
pub proof fn lemma_yaml_keeps_scalars(c: ContentV)
    ensures
        match c {
            ContentV::Bool(b) => yaml_of(c) == YamlV::Boolean(b),
            ContentV::U8(n) => yaml_of(c) matches YamlV::Integer(k) && k as int == n as int,
            ContentV::U16(n) => yaml_of(c) matches YamlV::Integer(k) && k as int == n as int,
            ContentV::U32(n) => yaml_of(c) matches YamlV::Integer(k) && k as int == n as int,
            ContentV::I8(n) => yaml_of(c) matches YamlV::Integer(k) && k as int == n as int,
            ContentV::I16(n) => yaml_of(c) matches YamlV::Integer(k) && k as int == n as int,
            ContentV::I32(n) => yaml_of(c) matches YamlV::Integer(k) && k as int == n as int,
            ContentV::I64(n) => yaml_of(c) matches YamlV::Integer(k) && k as int == n as int,
            ContentV::U64(n) => yaml_of(c) == YamlV::Real(dec_int(n as int)),
            ContentV::U128(n) => yaml_of(c) == YamlV::Real(dec_int(n as int)),
            ContentV::I128(n) => yaml_of(c) == YamlV::Real(dec_int(n as int)),
            ContentV::String(t) => yaml_of(c) == YamlV::String(t),
            ContentV::Char(ch) => yaml_of(c) == YamlV::String(seq![ch]),
            ContentV::Nothing => yaml_of(c) == YamlV::Null,
            ContentV::Unit => yaml_of(c) == YamlV::Null,
            _ => true,
        },
{
}

proof fn lemma_yaml_items(items: Seq<ContentV>, n: nat)
    requires
        n <= items.len(),
    ensures
        yaml_items(items, n).len() == n,
        forall|i: int| 0 <= i < n ==> #[trigger] yaml_items(items, n)[i] == yaml_of(items[i]),
    decreases n,
{
    if n > 0 {
        lemma_yaml_items(items, (n - 1) as nat);
        assert forall|i: int| 0 <= i < n implies #[trigger] yaml_items(items, n)[i] == yaml_of(items[i]) by {
            if i < n - 1 {
                assert(yaml_items(items, n)[i] == yaml_items(items, (n - 1) as nat)[i]);
            }
        }
    }
}

proof fn lemma_yaml_entries(es: Seq<(ContentV, ContentV)>, n: nat)
    requires
        n <= es.len(),
    ensures
        yaml_entries(es, n).len() == n,
        forall|i: int|
            0 <= i < n ==> #[trigger] yaml_entries(es, n)[i] == (yaml_of(es[i].0), yaml_of(es[i].1)),
    decreases n,
{
    if n > 0 {
        lemma_yaml_entries(es, (n - 1) as nat);
        assert forall|i: int| 0 <= i < n implies #[trigger] yaml_entries(es, n)[i] == (
            yaml_of(es[i].0),
            yaml_of(es[i].1),
        ) by {
            if i < n - 1 {
                assert(yaml_entries(es, n)[i] == yaml_entries(es, (n - 1) as nat)[i]);
            }
        }
    }
}

proof fn lemma_yaml_fields(fs: Seq<(Seq<char>, ContentV)>, n: nat)
    requires
        n <= fs.len(),
    ensures
        yaml_fields(fs, n).len() == n,
        forall|i: int|
            0 <= i < n ==> #[trigger] yaml_fields(fs, n)[i] == (YamlV::String(fs[i].0), yaml_of(fs[i].1)),
    decreases n,
{
    if n > 0 {
        lemma_yaml_fields(fs, (n - 1) as nat);
        assert forall|i: int| 0 <= i < n implies #[trigger] yaml_fields(fs, n)[i] == (
            YamlV::String(fs[i].0),
            yaml_of(fs[i].1),
        ) by {
            if i < n - 1 {
                assert(yaml_fields(fs, n)[i] == yaml_fields(fs, (n - 1) as nat)[i]);
            }
        }
    }
}

/// The YAML of a container holds the YAML of what it holds, in order: a
/// sequence, tuple or tuple struct becomes an array of its elements' YAML,
/// a map a hash of its keys' and values' YAML, and a struct a hash from
/// its field names to its field values' YAML.
pub proof fn lemma_yaml_keeps_structure(c: ContentV)
    ensures
        match c {
            ContentV::Sequence(items) => yaml_of(c) matches YamlV::Array(out) && out.len()
                == items.len() && forall|i: int|
                0 <= i < items.len() ==> #[trigger] out[i] == yaml_of(items[i]),
            ContentV::Tuple(items) => yaml_of(c) matches YamlV::Array(out) && out.len() == items.len()
                && forall|i: int| 0 <= i < items.len() ==> #[trigger] out[i] == yaml_of(items[i]),
            ContentV::TupleStruct(_, items) => yaml_of(c) matches YamlV::Array(out) && out.len()
                == items.len() && forall|i: int|
                0 <= i < items.len() ==> #[trigger] out[i] == yaml_of(items[i]),
            ContentV::Mapping(es) => yaml_of(c) matches YamlV::Hash(out) && out.len() == es.len()
                && forall|i: int|
                0 <= i < es.len() ==> #[trigger] out[i] == (yaml_of(es[i].0), yaml_of(es[i].1)),
            ContentV::Struct(_, fs) => yaml_of(c) matches YamlV::Hash(out) && out.len() == fs.len()
                && forall|i: int|
                0 <= i < fs.len() ==> #[trigger] out[i] == (YamlV::String(fs[i].0), yaml_of(fs[i].1)),
            ContentV::Wrapped(inner) => yaml_of(c) == yaml_of(*inner),
            ContentV::NewtypeStruct(_, inner) => yaml_of(c) == yaml_of(*inner),
            ContentV::UnitStruct(_) => yaml_of(c) == YamlV::Null,
            ContentV::UnitVariant(_, _, name) => yaml_of(c) == YamlV::String(name),
            ContentV::NewtypeVariant(_, _, name, inner) => yaml_of(c) == YamlV::Hash(
                seq![(YamlV::String(name), yaml_of(*inner))],
            ),
            _ => true,
        },
{
    match c {
        ContentV::Sequence(items) => lemma_yaml_items(items, items.len()),
        ContentV::Tuple(items) => lemma_yaml_items(items, items.len()),
        ContentV::TupleStruct(_, items) => lemma_yaml_items(items, items.len()),
        ContentV::Mapping(es) => lemma_yaml_entries(es, es.len()),
        ContentV::Struct(_, fs) => lemma_yaml_fields(fs, fs.len()),
        _ => {},
    }
}

fn decimal_string(n: i128) -> (r: String)
    ensures
        r@ == dec_int(n as int),
{
    let mut out: Vec<char> = Vec::new();
    crate::content::json::push_int(&mut out, n);
    string_from(out.as_slice())
}

fn translate_seq(items: &Vec<Content>) -> (r: YamlValue)
    ensures
        r@ == YamlV::Array(yaml_items(content_views(items@), items@.len())),
    decreases items, 1nat,
{
    let ghost iv = content_views(items@);
    proof {
        lemma_content_views(items@);
    }
    let mut out: Vec<YamlValue> = Vec::new();
    let mut i: usize = 0;
    while i < items.len()
        invariant
            i <= items@.len(),
            iv == content_views(items@),
            iv.len() == items@.len(),
            forall|j: int| 0 <= j < items@.len() ==> #[trigger] iv[j] == items@[j]@,
            yaml_views(out@) == yaml_items(iv, i as nat),
        decreases items.len() - i,
    {
        proof {
            assert(decreases_to!(items => items@[i as int]));
            lemma_yaml_views(out@);
        }
        let ghost before = out@;
        let y = to_yaml_value(&items[i]);
        out.push(y);
        proof {
            lemma_yaml_views(out@);
            assert(yaml_views(out@) =~= yaml_views(before).push(y@));
        }
        i += 1;
    }
    YamlValue::Array(out)
}

fn translate_map(map: &Vec<(Content, Content)>) -> (r: YamlValue)
    ensures
        r@ == YamlV::Hash(yaml_entries(entry_views(map@), map@.len())),
    decreases map, 1nat,
{
    let ghost ev = entry_views(map@);
    proof {
        lemma_entry_views(map@);
    }
    let mut out: Vec<(YamlValue, YamlValue)> = Vec::new();
    let mut i: usize = 0;
    while i < map.len()
        invariant
            i <= map@.len(),
            ev == entry_views(map@),
            ev.len() == map@.len(),
            forall|j: int| 0 <= j < map@.len() ==> #[trigger] ev[j] == (map@[j].0@, map@[j].1@),
            yaml_pair_views(out@) == yaml_entries(ev, i as nat),
        decreases map.len() - i,
    {
        proof {
            assert(decreases_to!(map => map@[i as int]));
            assert(decreases_to!(map@[i as int] => map@[i as int].0));
            assert(decreases_to!(map@[i as int] => map@[i as int].1));
            assert(ev[i as int] == (map@[i as int].0@, map@[i as int].1@));
            lemma_yaml_pair_views(out@);
        }
        let ghost before = out@;
        let e = &map[i];
        let k = to_yaml_value(&e.0);
        let v = to_yaml_value(&e.1);
        out.push((k, v));
        proof {
            lemma_yaml_pair_views(out@);
            assert(yaml_pair_views(out@) =~= yaml_pair_views(before).push((k@, v@)));
        }
        i += 1;
    }
    YamlValue::Hash(out)
}

fn translate_fields(fields: &Vec<(String, Content)>) -> (r: YamlValue)
    ensures
        r@ == YamlV::Hash(yaml_fields(field_views(fields@), fields@.len())),
    decreases fields, 1nat,
{
    let ghost fv = field_views(fields@);
    proof {
        lemma_field_views(fields@);
    }
    let mut out: Vec<(YamlValue, YamlValue)> = Vec::new();
    let mut i: usize = 0;
    while i < fields.len()
        invariant
            i <= fields@.len(),
            fv == field_views(fields@),
            fv.len() == fields@.len(),
            forall|j: int|
                0 <= j < fields@.len() ==> #[trigger] fv[j] == (fields@[j].0@, fields@[j].1@),
            yaml_pair_views(out@) == yaml_fields(fv, i as nat),
        decreases fields.len() - i,
    {
        proof {
            assert(decreases_to!(fields => fields@[i as int]));
            assert(decreases_to!(fields@[i as int] => fields@[i as int].1));
            assert(fv[i as int] == (fields@[i as int].0@, fields@[i as int].1@));
            lemma_yaml_pair_views(out@);
        }
        let ghost before = out@;
        let f = &fields[i];
        let k = YamlValue::String(f.0.clone());
        let v = to_yaml_value(&f.1);
        out.push((k, v));
        proof {
            lemma_yaml_pair_views(out@);
            assert(yaml_pair_views(out@) =~= yaml_pair_views(before).push((k@, v@)));
        }
        i += 1;
    }
    YamlValue::Hash(out)
}

fn translate_bytes(bytes: &Vec<u8>) -> (r: YamlValue)
    ensures
        r@ == YamlV::Array(byte_items(bytes@, bytes@.len())),
{
    let mut out: Vec<YamlValue> = Vec::new();
    let mut i: usize = 0;
    while i < bytes.len()
        invariant
            i <= bytes@.len(),
            yaml_views(out@) == byte_items(bytes@, i as nat),
        decreases bytes.len() - i,
    {
        proof {
            lemma_yaml_views(out@);
        }
        let ghost before = out@;
        let y = YamlValue::Integer(bytes[i] as i64);
        out.push(y);
        proof {
            lemma_yaml_views(out@);
            assert(yaml_views(out@) =~= yaml_views(before).push(y@));
        }
        i += 1;
    }
    YamlValue::Array(out)
}

fn variant_hash(name: &String, value: YamlValue) -> (r: YamlValue)
    ensures
        r@ == YamlV::Hash(seq![(YamlV::String(name@), value@)]),
{
    let mut out: Vec<(YamlValue, YamlValue)> = Vec::new();
    let k = YamlValue::String(name.clone());
    out.push((k, value));
    proof {
        lemma_yaml_pair_views(out@);
        assert(yaml_pair_views(out@) =~= seq![(YamlV::String(name@), value@)]);
    }
    YamlValue::Hash(out)
}

/// The YAML value of a content value.
pub fn to_yaml_value(content: &Content) -> (r: YamlValue)
    ensures
        r@ == yaml_of(content@),
    decreases content, 2nat,
{
    match content {
        Content::Sequence(items) | Content::Tuple(items) | Content::TupleStruct(_, items)
        | Content::TupleVariant(_, _, _, items) => {
            proof {
                lemma_content_views(items@);
            }
        },
        Content::Mapping(map) => {
            proof {
                lemma_entry_views(map@);
            }
        },
        Content::Struct(_, fields) | Content::StructVariant(_, _, _, fields) => {
            proof {
                lemma_field_views(fields@);
            }
        },
        _ => {},
    }
    match content {
        Content::Bool(b) => YamlValue::Boolean(*b),
        Content::U8(n) => YamlValue::Integer(*n as i64),
        Content::U16(n) => YamlValue::Integer(*n as i64),
        Content::U32(n) => YamlValue::Integer(*n as i64),
        Content::U64(n) => YamlValue::Real(decimal_string(*n as i128)),
        Content::U128(n) => {
            let mut out: Vec<char> = Vec::new();
            crate::content::json::push_dec(&mut out, *n);
            YamlValue::Real(string_from(out.as_slice()))
        },
        Content::I8(n) => YamlValue::Integer(*n as i64),
        Content::I16(n) => YamlValue::Integer(*n as i64),
        Content::I32(n) => YamlValue::Integer(*n as i64),
        Content::I64(n) => YamlValue::Integer(*n),
        Content::I128(n) => YamlValue::Real(decimal_string(*n)),
        Content::F32(f) => YamlValue::Real(f.display.clone()),
        Content::F64(f) => YamlValue::Real(f.display.clone()),
        Content::Char(c) => {
            let mut s = String::new();
            s.push(*c);
            assert(s@ =~= seq![*c]);
            YamlValue::String(s)
        },
        Content::String(s) => YamlValue::String(s.clone()),
        Content::Bytes(bytes) => translate_bytes(bytes),
        Content::Nothing | Content::Unit | Content::UnitStruct(_) => YamlValue::Null,
        Content::Wrapped(inner) => to_yaml_value(inner),
        Content::UnitVariant(_, _, name) => YamlValue::String(name.clone()),
        Content::NewtypeStruct(_, inner) => to_yaml_value(inner),
        Content::NewtypeVariant(_, _, name, inner) => variant_hash(name, to_yaml_value(inner)),
        Content::Sequence(items) => translate_seq(items),
        Content::Tuple(items) => translate_seq(items),
        Content::TupleStruct(_, items) => translate_seq(items),
        Content::TupleVariant(_, _, name, items) => variant_hash(name, translate_seq(items)),
        Content::Mapping(map) => translate_map(map),
        Content::Struct(_, fields) => translate_fields(fields),
        Content::StructVariant(_, _, name, fields) => variant_hash(name, translate_fields(fields)),
    }
}

// ---------------------------------------------------------------------
// Emitting YAML
// ---------------------------------------------------------------------
/// The text the `yaml-rust` emitter writes for a YAML value.
pub uninterp spec fn yaml_dumped(v: YamlV) -> Seq<char>;

/// The YAML value of the `yaml-rust` crate that stands for a value of this
/// library: the same variant with the same fields, a hash built by
/// inserting its entries in order.
#[verifier::external_type_specification]
#[verifier::external_body]
pub struct ExYaml(yaml_rust::Yaml);

/// Converts a YAML value into the `yaml-rust` crate's own, one variant for
/// one; its hash is a `LinkedHashMap` filled by `insert`.
#[verifier::external_body]
fn to_yaml_rust(v: &YamlValue) -> yaml_rust::Yaml {
    match v {
        YamlValue::Real(s) => yaml_rust::Yaml::Real(s.clone()),
        YamlValue::Integer(i) => yaml_rust::Yaml::Integer(*i),
        YamlValue::String(s) => yaml_rust::Yaml::String(s.clone()),
        YamlValue::Boolean(b) => yaml_rust::Yaml::Boolean(*b),
        YamlValue::Array(items) => yaml_rust::Yaml::Array(items.iter().map(to_yaml_rust).collect()),
        YamlValue::Hash(pairs) => yaml_rust::Yaml::Hash(
            pairs.iter().map(|(k, x)| (to_yaml_rust(k), to_yaml_rust(x))).collect(),
        ),
        YamlValue::Alias(n) => yaml_rust::Yaml::Alias(*n),
        YamlValue::Null => yaml_rust::Yaml::Null,
        YamlValue::BadValue => yaml_rust::Yaml::BadValue,
    }
}

/// Writes a YAML document: calls `yaml_rust::YamlEmitter::dump` on the
/// value, which starts the document with `---` and a line break.  The text
/// is named `yaml_dumped` of the value.
#[verifier::external_body]
fn dump_yaml(v: &YamlValue) -> (r: String)
    ensures
        r@ == yaml_dumped(v@),
        r@.len() >= 4,
        r@.take(4) == seq!['-', '-', '-', '\n'],
{
    let mut out = String::new();
    yaml_rust::YamlEmitter::new(&mut out).dump(&to_yaml_rust(v)).unwrap();
    out
}

/// The YAML text of a content value: the emitted document, ending in a
/// line break.
pub open spec fn yaml_text(c: ContentV) -> Seq<char> {
    let t = yaml_dumped(yaml_of(c));
    if t.len() > 0 && t.last() == '\n' {
        t
    } else {
        t.push('\n')
    }
}

/// Serializes a value to a YAML document.
pub fn to_string(content: &Content) -> (r: String)
    ensures
        r@ == yaml_text(content@),
        r@.len() >= 4,
{
    let yaml_blob = to_yaml_value(content);
    let buf = dump_yaml(&yaml_blob);
    let mut cs = chars_of(buf.as_str());
    if !(cs.len() > 0 && cs[cs.len() - 1] == '\n') {
        cs.push('\n');
    }
    string_from(cs.as_slice())
}

/// The YAML of a snapshot: the document without its `---` line.
pub open spec fn yaml_snapshot(c: ContentV) -> Seq<char> {
    yaml_text(c).skip(4)
}

/// Serializes a value to YAML for a snapshot: the document without its
/// leading `---` line.
pub fn to_snapshot_string(content: &Content) -> (r: String)
    ensures
        r@ == yaml_snapshot(content@),
{
    let text = to_string(content);
    let cs = chars_of(text.as_str());
    let rest = crate::text::slice_copy(cs.as_slice(), 4, cs.len());
    assert(rest@ =~= yaml_snapshot(content@));
    string_from(rest.as_slice())
}


// ---------------------------------------------------------------------
// Loading YAML
// ---------------------------------------------------------------------
/// The documents that `yaml-rust`'s loader reads from a text, where it
/// reads the text without an error.
pub uninterp spec fn yaml_loaded(text: Seq<char>) -> Option<Seq<YamlV>>;

/// The documents that a load gave, as values.
pub open spec fn opt_docs_view(r: Option<Vec<YamlValue>>) -> Option<Seq<YamlV>> {
    match r {
        Some(docs) => Some(yaml_views(docs@)),
        None => None,
    }
}

/// Converts a value of the `yaml-rust` crate into this library's, one
/// variant for one; a hash's entries are taken in the order in which its
/// `LinkedHashMap` holds them.
#[verifier::external_body]
fn from_yaml_rust(v: &yaml_rust::Yaml) -> YamlValue {
    match v {
        yaml_rust::Yaml::Real(s) => YamlValue::Real(s.clone()),
        yaml_rust::Yaml::Integer(i) => YamlValue::Integer(*i),
        yaml_rust::Yaml::String(s) => YamlValue::String(s.clone()),
        yaml_rust::Yaml::Boolean(b) => YamlValue::Boolean(*b),
        yaml_rust::Yaml::Array(items) => YamlValue::Array(items.iter().map(from_yaml_rust).collect()),
        yaml_rust::Yaml::Hash(h) => YamlValue::Hash(
            h.iter().map(|(k, x)| (from_yaml_rust(k), from_yaml_rust(x))).collect(),
        ),
        yaml_rust::Yaml::Alias(n) => YamlValue::Alias(*n),
        yaml_rust::Yaml::Null => YamlValue::Null,
        yaml_rust::Yaml::BadValue => YamlValue::BadValue,
    }
}

/// Loads the YAML documents of a text with
/// `yaml_rust::YamlLoader::load_from_str`: `None` where it reports a scan
/// error.  What it reads is named `yaml_loaded` of the text.
#[verifier::external_body]
fn load_yaml(text: &str) -> (r: Option<Vec<YamlValue>>)
    ensures
        opt_docs_view(r) == yaml_loaded(text@),
{
    match yaml_rust::YamlLoader::load_from_str(text) {
        Ok(docs) => Some(docs.iter().map(from_yaml_rust).collect()),
        Err(_) => None,
    }
}

/// Whether a YAML value holds no alias and no bad value, at any depth.
pub open spec fn yaml_plain(v: YamlV) -> bool
    decreases v, 0nat,
{
    match v {
        YamlV::Alias(_) => false,
        YamlV::BadValue => false,
        YamlV::Array(items) => all_plain(items),
        YamlV::Hash(pairs) => pairs_plain(pairs),
        _ => true,
    }
}

/// Whether every value of a sequence is plain.
pub open spec fn all_plain(s: Seq<YamlV>) -> bool
    decreases s, s.len(),
{
    if s.len() == 0 {
        true
    } else {
        proof {
            assert(decreases_to!(s => s[s.len() - 1]));
        }
        all_plain(s.drop_last()) && yaml_plain(s.last())
    }
}

/// Whether every key and value of a hash is plain.
pub open spec fn pairs_plain(s: Seq<(YamlV, YamlV)>) -> bool
    decreases s, s.len(),
{
    if s.len() == 0 {
        true
    } else {
        let e = s.last();
        proof {
            assert(decreases_to!(s => s[s.len() - 1]));
        }
        pairs_plain(s.drop_last()) && yaml_plain(e.0) && yaml_plain(e.1)
    }
}

proof fn lemma_all_plain(s: Seq<YamlV>)
    ensures
        all_plain(s) == forall|i: int| 0 <= i < s.len() ==> #[trigger] yaml_plain(s[i]),
    decreases s.len(),
{
    if s.len() > 0 {
        lemma_all_plain(s.drop_last());
        assert forall|i: int| 0 <= i < s.len() - 1 implies s.drop_last()[i] == s[i] by {}
        if !all_plain(s) {
            if !all_plain(s.drop_last()) {
                let k = choose|k: int| 0 <= k < s.len() - 1 && !yaml_plain(#[trigger] s.drop_last()[k]);
                assert(!yaml_plain(s[k]));
            } else {
                assert(!yaml_plain(s[s.len() - 1]));
            }
        }
    }
}

proof fn lemma_pairs_plain(s: Seq<(YamlV, YamlV)>)
    ensures
        pairs_plain(s) == forall|i: int|
            0 <= i < s.len() ==> #[trigger] yaml_plain(s[i].0) && yaml_plain(s[i].1),
    decreases s.len(),
{
    if s.len() > 0 {
        lemma_pairs_plain(s.drop_last());
        assert forall|i: int| 0 <= i < s.len() - 1 implies s.drop_last()[i] == s[i] by {}
        if !pairs_plain(s) {
            if !pairs_plain(s.drop_last()) {
                let k = choose|k: int|
                    0 <= k < s.len() - 1 && !(yaml_plain(#[trigger] s.drop_last()[k].0) && yaml_plain(
                        s.drop_last()[k].1,
                    ));
                assert(!(yaml_plain(s[k].0) && yaml_plain(s[k].1)));
            } else {
                assert(!(yaml_plain(s[s.len() - 1].0) && yaml_plain(s[s.len() - 1].1)));
            }
        }
    }
}

proof fn lemma_pair_not_plain(s: Seq<(YamlV, YamlV)>, i: int)
    requires
        0 <= i < s.len(),
        !(yaml_plain(s[i].0) && yaml_plain(s[i].1)),
    ensures
        !pairs_plain(s),
    decreases s.len(),
{
    if i < s.len() - 1 {
        assert(s.drop_last()[i] == s[i]);
        lemma_pair_not_plain(s.drop_last(), i);
    }
}

fn is_plain(v: &YamlValue) -> (r: bool)
    ensures
        r == yaml_plain(v@),
    decreases *v, 0nat,
{
    match v {
        YamlValue::Alias(_) => false,
        YamlValue::BadValue => false,
        YamlValue::Array(items) => items_plain(items),
        YamlValue::Hash(pairs) => hash_plain(pairs),
        _ => true,
    }
}

fn items_plain(items: &Vec<YamlValue>) -> (r: bool)
    ensures
        r == all_plain(yaml_views(items@)),
    decreases *items, 1nat,
{
    proof {
        lemma_yaml_views(items@);
        lemma_all_plain(yaml_views(items@));
    }
    let mut i: usize = 0;
    while i < items.len()
        invariant
            i <= items@.len(),
            yaml_views(items@).len() == items@.len(),
            forall|k: int| 0 <= k < items@.len() ==> #[trigger] yaml_views(items@)[k] == items@[k]@,
            forall|k: int| 0 <= k < i ==> yaml_plain(#[trigger] yaml_views(items@)[k]),
        decreases items.len() - i,
    {
        proof {
            assert(decreases_to!(*items => items@));
            assert(decreases_to!(items@ => items@[i as int]));
        }
        if !is_plain(&items[i]) {
            assert(!yaml_plain(yaml_views(items@)[i as int]));
            proof {
                lemma_all_plain(yaml_views(items@));
            }
            return false;
        }
        i += 1;
    }
    true
}

fn hash_plain(pairs: &Vec<(YamlValue, YamlValue)>) -> (r: bool)
    ensures
        r == pairs_plain(yaml_pair_views(pairs@)),
    decreases *pairs, 1nat,
{
    proof {
        lemma_yaml_pair_views(pairs@);
        lemma_pairs_plain(yaml_pair_views(pairs@));
    }
    let mut i: usize = 0;
    while i < pairs.len()
        invariant
            i <= pairs@.len(),
            yaml_pair_views(pairs@).len() == pairs@.len(),
            forall|k: int|
                0 <= k < pairs@.len() ==> #[trigger] yaml_pair_views(pairs@)[k] == (
                    pairs@[k].0@,
                    pairs@[k].1@,
                ),
            forall|k: int|
                0 <= k < i ==> #[trigger] yaml_plain(yaml_pair_views(pairs@)[k].0) && yaml_plain(
                    yaml_pair_views(pairs@)[k].1,
                ),
        decreases pairs.len() - i,
    {
        proof {
            assert(decreases_to!(*pairs => pairs@));
            assert(decreases_to!(pairs@ => pairs@[i as int]));
            assert(decreases_to!(pairs@[i as int] => pairs@[i as int].0));
            assert(decreases_to!(pairs@[i as int] => pairs@[i as int].1));
        }
        let p = &pairs[i];
        if !is_plain(&p.0) || !is_plain(&p.1) {
            assert(yaml_pair_views(pairs@)[i as int] == (pairs@[i as int].0@, pairs@[i as int].1@));
            assert(!(yaml_plain(yaml_pair_views(pairs@)[i as int].0) && yaml_plain(
                yaml_pair_views(pairs@)[i as int].1,
            )));
            proof {
                let s = yaml_pair_views(pairs@);
                lemma_pair_not_plain(s, i as int);
            }
            return false;
        }
        i += 1;
    }
    true
}

/// The document of a YAML text read as a snapshot header or a config:
/// there must be exactly one, holding no alias and no bad value.
pub open spec fn single_doc(docs: Seq<YamlV>) -> Option<YamlV> {
    if docs.len() == 1 && yaml_plain(docs[0]) {
        Some(docs[0])
    } else {
        None
    }
}

/// Whether an error says that the YAML of `filename` could not be read.
pub open spec fn yaml_failed(e: Error, filename: Seq<char>) -> bool {
    e matches Error::FailedParsingYaml(f) && f@ == filename
}

/// The single document among loaded ones: the error that the YAML of
/// `filename` could not be read where there is not exactly one, or it
/// holds an alias or a bad value.
pub fn single_yaml_doc(docs: Vec<YamlValue>, filename: &str) -> (r: Result<YamlValue, Error>)
    ensures
        match single_doc(yaml_views(docs@)) {
            Some(v) => r matches Ok(x) && x@ == v,
            None => r matches Err(e) && yaml_failed(e, filename@),
        },
{
    proof {
        lemma_yaml_views(docs@);
    }
    let failed = Error::FailedParsingYaml(string_from(chars_of(filename).as_slice()));
    if docs.len() != 1 {
        return Err(failed);
    }
    let mut docs = docs;
    let ghost before = docs@;
    let doc = docs.remove(0);
    assert(doc@ == yaml_views(before)[0]);
    if is_plain(&doc) {
        Ok(doc)
    } else {
        Err(failed)
    }
}

/// Reads the single YAML document of a text: the error that the YAML of
/// `filename` could not be read where the loader fails, or where the text
/// holds not exactly one document or one with an alias or a bad value.
pub fn parse_yaml(text: &str, filename: &str) -> (r: Result<YamlValue, Error>)
    ensures
        match yaml_loaded(text@) {
            None => r matches Err(e) && yaml_failed(e, filename@),
            Some(docs) => match single_doc(docs) {
                Some(v) => r matches Ok(x) && x@ == v,
                None => r matches Err(e) && yaml_failed(e, filename@),
            },
        },
{
    match load_yaml(text) {
        None => Err(Error::FailedParsingYaml(string_from(chars_of(filename).as_slice()))),
        Some(docs) => single_yaml_doc(docs, filename),
    }
}

} // verus!
