//! The order in which the entries of a map are sorted.
//!
//! Two keys are first compared by the scalar each resolves to (booleans,
//! integers, floats by their total order, strings, bytes); where either key
//! has no such scalar, the keys are compared structurally, variant by
//! variant and field by field, and keys that cannot be ordered (a NaN)
//! count as equal.
use vstd::prelude::*;

use crate::content::{
    Content, ContentV, FloatV, content_views, entry_views, field_views, lemma_content_views,
    lemma_entry_views, lemma_field_views, resolve,
};
use crate::text::chars_of;

verus! {

broadcast use vstd::std_specs::vec::group_vec_axioms;

/// The result of comparing two values.
#[derive(Debug, Clone, Copy)]
pub enum Order {
    Less,
    Equal,
    Greater,
}

impl Order {
    /// The order seen from the other side.
    pub open spec fn reversed(self) -> Order {
        match self {
            Order::Less => Order::Greater,
            Order::Equal => Order::Equal,
            Order::Greater => Order::Less,
        }
    }
}

/// The order of two integers.
pub open spec fn order_of(a: int, b: int) -> Order {
    if a < b {
        Order::Less
    } else if a == b {
        Order::Equal
    } else {
        Order::Greater
    }
}

/// `first`, unless it is `Equal`; then `next`.
pub open spec fn then(first: Order, next: Order) -> Order {
    match first {
        Order::Equal => next,
        _ => first,
    }
}

/// `Some(first)`, unless it is `Equal`; then `next`.
pub open spec fn then_partial(first: Order, next: Option<Order>) -> Option<Order> {
    match first {
        Order::Equal => next,
        _ => Some(first),
    }
}

/// The reversed order, where there is one.
pub open spec fn reversed_partial(o: Option<Order>) -> Option<Order> {
    match o {
        Some(x) => Some(x.reversed()),
        None => None,
    }
}

/// The lexicographic order of two strings from position `i` on: by the
/// first differing character, else by length.  (Comparing the UTF-8 bytes
/// of two strings gives the same order.)
pub open spec fn chars_order(a: Seq<char>, b: Seq<char>, i: nat) -> Order
    decreases a.len() - i,
{
    if i >= a.len() || i >= b.len() {
        order_of(a.len() as int, b.len() as int)
    } else if a[i as int] != b[i as int] {
        order_of(a[i as int] as int, b[i as int] as int)
    } else {
        chars_order(a, b, i + 1)
    }
}

/// The lexicographic order of two byte strings from position `i` on.
pub open spec fn bytes_order(a: Seq<u8>, b: Seq<u8>, i: nat) -> Order
    decreases a.len() - i,
{
    if i >= a.len() || i >= b.len() {
        order_of(a.len() as int, b.len() as int)
    } else if a[i as int] != b[i as int] {
        order_of(a[i as int] as int, b[i as int] as int)
    } else {
        bytes_order(a, b, i + 1)
    }
}

// ---------------------------------------------------------------------
// Floats
// ---------------------------------------------------------------------
/// Whether the bits of a 64-bit float are a NaN.
pub open spec fn f64_is_nan(bits: u64) -> bool {
    (bits / 0x10_0000_0000_0000) % 2048 == 2047 && bits % 0x10_0000_0000_0000 != 0
}

/// Whether the bits of a 32-bit float are a NaN.
pub open spec fn f32_is_nan(bits: u64) -> bool {
    (bits / 0x80_0000) % 256 == 255 && bits % 0x80_0000 != 0
}

/// A rank of a 64-bit float that is not a NaN: a greater float has a
/// greater rank, and both zeros have rank 0.
pub open spec fn f64_rank(bits: u64) -> int {
    if bits >= 0x8000_0000_0000_0000 {
        -(bits - 0x8000_0000_0000_0000)
    } else {
        bits as int
    }
}

/// A rank of a 32-bit float that is not a NaN.
pub open spec fn f32_rank(bits: u64) -> int {
    if bits >= 0x8000_0000 {
        -(bits - 0x8000_0000)
    } else {
        bits as int
    }
}

/// The order of two floats by value: none where either is a NaN.
pub open spec fn float_order(nan_a: bool, nan_b: bool, rank_a: int, rank_b: int) -> Option<Order> {
    if nan_a || nan_b {
        None
    } else {
        Some(order_of(rank_a, rank_b))
    }
}

/// The total order of 64-bit floats: the bits read as a signed integer,
/// with the magnitude bits of negative floats flipped.  Negative NaNs come
/// first, positive NaNs last.
pub open spec fn total_rank(bits: u64) -> int {
    if bits < 0x8000_0000_0000_0000 {
        bits as int
    } else {
        0x7fff_ffff_ffff_ffff - bits
    }
}

/// The mantissa `m` of a subnormal 32-bit float shifted left until its
/// leading bit is bit 23, with the number of shifts.
pub open spec fn normalized(m: nat, k: nat) -> (nat, nat)
    decreases 23 - k,
{
    if m == 0 || m >= 0x80_0000 || k >= 23 {
        (m, k)
    } else {
        normalized(2 * m, k + 1)
    }
}

/// The bits of the 64-bit float equal to the 32-bit float with the given
/// bits.  A NaN keeps its payload and becomes quiet.
pub open spec fn widened(bits: u64) -> u64 {
    let sign: int = if (bits / 0x8000_0000) % 2 == 1 {
        0x8000_0000_0000_0000
    } else {
        0
    };
    let e: int = ((bits / 0x80_0000) % 256) as int;
    let m: int = (bits % 0x80_0000) as int;
    let rest: int = if e == 255 {
        if m == 0 {
            2047 * 0x10_0000_0000_0000int
        } else if m >= 0x40_0000 {
            2047 * 0x10_0000_0000_0000 + m * 0x2000_0000
        } else {
            2047 * 0x10_0000_0000_0000 + (m + 0x40_0000) * 0x2000_0000
        }
    } else if e == 0 {
        if m == 0 {
            0int
        } else {
            let (mm, k) = normalized(m as nat, 0);
            (897 - k) * 0x10_0000_0000_0000 + (mm - 0x80_0000) * 0x2000_0000
        }
    } else {
        (e + 896) * 0x10_0000_0000_0000 + m * 0x2000_0000
    };
    (sign + rest) as u64
}

// ---------------------------------------------------------------------
// Keys
// ---------------------------------------------------------------------
/// The scalar a map key resolves to, by which it is sorted.
pub enum KeyV {
    Bool(bool),
    U64(u64),
    I64(i64),
    /// A float, by the bits of its 64-bit value.
    F64(u64),
    U128(u128),
    I128(i128),
    Str(Seq<char>),
    Bytes(Seq<u8>),
    Other,
}

/// The key of a value: its resolved scalar.  Characters count as their
/// code points, narrower integers and floats are widened; 8-bit integers
/// and everything that is not a scalar have no key.
pub open spec fn key_of(c: ContentV) -> KeyV {
    match resolve(c) {
        ContentV::Bool(b) => KeyV::Bool(b),
        ContentV::Char(ch) => KeyV::U64(ch as u64),
        ContentV::U16(n) => KeyV::U64(n as u64),
        ContentV::U32(n) => KeyV::U64(n as u64),
        ContentV::U64(n) => KeyV::U64(n),
        ContentV::U128(n) => KeyV::U128(n),
        ContentV::I16(n) => KeyV::I64(n as i64),
        ContentV::I32(n) => KeyV::I64(n as i64),
        ContentV::I64(n) => KeyV::I64(n),
        ContentV::I128(n) => KeyV::I128(n),
        ContentV::F32(f) => KeyV::F64(widened(f.bits)),
        ContentV::F64(f) => KeyV::F64(f.bits),
        ContentV::String(s) => KeyV::Str(s),
        ContentV::Bytes(b) => KeyV::Bytes(b),
        _ => KeyV::Other,
    }
}

/// The rank of a key's kind: keys of different kinds are ordered by it.
pub open spec fn key_kind(k: KeyV) -> int {
    match k {
        KeyV::Bool(_) => 1,
        KeyV::U64(_) => 2,
        KeyV::I64(_) => 3,
        KeyV::F64(_) => 4,
        KeyV::U128(_) => 5,
        KeyV::I128(_) => 6,
        KeyV::Str(_) => 7,
        KeyV::Bytes(_) => 8,
        KeyV::Other => 9,
    }
}

/// A boolean as a number: `false` before `true`.
pub open spec fn bool_rank(b: bool) -> int {
    if b {
        1
    } else {
        0
    }
}

/// The total order of keys: by kind, then by value.
pub open spec fn key_order(a: KeyV, b: KeyV) -> Order {
    if key_kind(a) != key_kind(b) {
        order_of(key_kind(a), key_kind(b))
    } else {
        match (a, b) {
            (KeyV::Bool(x), KeyV::Bool(y)) => order_of(bool_rank(x), bool_rank(y)),
            (KeyV::U64(x), KeyV::U64(y)) => order_of(x as int, y as int),
            (KeyV::I64(x), KeyV::I64(y)) => order_of(x as int, y as int),
            (KeyV::F64(x), KeyV::F64(y)) => order_of(total_rank(x), total_rank(y)),
            (KeyV::U128(x), KeyV::U128(y)) => order_of(x as int, y as int),
            (KeyV::I128(x), KeyV::I128(y)) => order_of(x as int, y as int),
            (KeyV::Str(x), KeyV::Str(y)) => chars_order(x, y, 0),
            (KeyV::Bytes(x), KeyV::Bytes(y)) => bytes_order(x, y, 0),
            _ => Order::Equal,
        }
    }
}

// ---------------------------------------------------------------------
// Structural order
// ---------------------------------------------------------------------
/// The position of a value's variant in the declaration of `Content`.
pub open spec fn variant_rank(c: ContentV) -> int {
    match c {
        ContentV::Bool(_) => 0,
        ContentV::U8(_) => 1,
        ContentV::U16(_) => 2,
        ContentV::U32(_) => 3,
        ContentV::U64(_) => 4,
        ContentV::U128(_) => 5,
        ContentV::I8(_) => 6,
        ContentV::I16(_) => 7,
        ContentV::I32(_) => 8,
        ContentV::I64(_) => 9,
        ContentV::I128(_) => 10,
        ContentV::F32(_) => 11,
        ContentV::F64(_) => 12,
        ContentV::Char(_) => 13,
        ContentV::String(_) => 14,
        ContentV::Bytes(_) => 15,
        ContentV::Nothing => 16,
        ContentV::Wrapped(_) => 17,
        ContentV::Unit => 18,
        ContentV::UnitStruct(_) => 19,
        ContentV::UnitVariant(_, _, _) => 20,
        ContentV::NewtypeStruct(_, _) => 21,
        ContentV::NewtypeVariant(_, _, _, _) => 22,
        ContentV::Sequence(_) => 23,
        ContentV::Tuple(_) => 24,
        ContentV::TupleStruct(_, _) => 25,
        ContentV::TupleVariant(_, _, _, _) => 26,
        ContentV::Mapping(_) => 27,
        ContentV::Struct(_, _) => 28,
        ContentV::StructVariant(_, _, _, _) => 29,
    }
}

/// The order of the names and indices that head a variant.
pub open spec fn head_order(n: Seq<char>, i: u32, v: Seq<char>, m: Seq<char>, j: u32, w: Seq<char>) -> Order {
    then(chars_order(n, m, 0), then(order_of(i as int, j as int), chars_order(v, w, 0)))
}

/// The order of two scalar values of the same variant: numbers by value,
/// floats by value (none where either is a NaN), strings and bytes
/// lexicographically.
pub open spec fn scalar_order(a: ContentV, b: ContentV) -> Option<Order> {
    match a {
            ContentV::Bool(x) => match b {
                ContentV::Bool(y) => Some(order_of(bool_rank(x), bool_rank(y))),
                _ => None,
            },
            ContentV::U8(x) => match b {
                ContentV::U8(y) => Some(order_of(x as int, y as int)),
                _ => None,
            },
            ContentV::U16(x) => match b {
                ContentV::U16(y) => Some(order_of(x as int, y as int)),
                _ => None,
            },
            ContentV::U32(x) => match b {
                ContentV::U32(y) => Some(order_of(x as int, y as int)),
                _ => None,
            },
            ContentV::U64(x) => match b {
                ContentV::U64(y) => Some(order_of(x as int, y as int)),
                _ => None,
            },
            ContentV::U128(x) => match b {
                ContentV::U128(y) => Some(order_of(x as int, y as int)),
                _ => None,
            },
            ContentV::I8(x) => match b {
                ContentV::I8(y) => Some(order_of(x as int, y as int)),
                _ => None,
            },
            ContentV::I16(x) => match b {
                ContentV::I16(y) => Some(order_of(x as int, y as int)),
                _ => None,
            },
            ContentV::I32(x) => match b {
                ContentV::I32(y) => Some(order_of(x as int, y as int)),
                _ => None,
            },
            ContentV::I64(x) => match b {
                ContentV::I64(y) => Some(order_of(x as int, y as int)),
                _ => None,
            },
            ContentV::I128(x) => match b {
                ContentV::I128(y) => Some(order_of(x as int, y as int)),
                _ => None,
            },
            ContentV::F32(x) => match b {
                ContentV::F32(y) => float_order(
                    f32_is_nan(x.bits),
                    f32_is_nan(y.bits),
                    f32_rank(x.bits),
                    f32_rank(y.bits),
                ),
                _ => None,
            },
            ContentV::F64(x) => match b {
                ContentV::F64(y) => float_order(
                    f64_is_nan(x.bits),
                    f64_is_nan(y.bits),
                    f64_rank(x.bits),
                    f64_rank(y.bits),
                ),
                _ => None,
            },
            ContentV::Char(x) => match b {
                ContentV::Char(y) => Some(order_of(x as int, y as int)),
                _ => None,
            },
            ContentV::String(x) => match b {
                ContentV::String(y) => Some(chars_order(x, y, 0)),
                _ => None,
            },
            ContentV::Bytes(x) => match b {
                ContentV::Bytes(y) => Some(bytes_order(x, y, 0)),
                _ => None,
            },
        _ => None,
    }
}

/// The structural order of two values: by variant, then field by field,
/// sequences lexicographically.  There is none where two floats that
/// decide it cannot be ordered.
pub open spec fn partial_order(a: ContentV, b: ContentV) -> Option<Order>
    decreases a, 0nat,
{
    if variant_rank(a) != variant_rank(b) {
        Some(order_of(variant_rank(a), variant_rank(b)))
    } else if variant_rank(a) < 16 {
        scalar_order(a, b)
    } else {
        match a {
            ContentV::Nothing => Some(Order::Equal),
            ContentV::Wrapped(x) => match b {
                ContentV::Wrapped(y) => partial_order(*x, *y),
                _ => None,
            },
            ContentV::Unit => Some(Order::Equal),
            ContentV::UnitStruct(n) => match b {
                ContentV::UnitStruct(m) => Some(chars_order(n, m, 0)),
                _ => None,
            },
            ContentV::UnitVariant(n, i, v) => match b {
                ContentV::UnitVariant(m, j, w) => Some(head_order(n, i, v, m, j, w)),
                _ => None,
            },
            ContentV::NewtypeStruct(n, x) => match b {
                ContentV::NewtypeStruct(m, y) => then_partial(
                    chars_order(n, m, 0),
                    partial_order(*x, *y),
                ),
                _ => None,
            },
            ContentV::NewtypeVariant(n, i, v, x) => match b {
                ContentV::NewtypeVariant(m, j, w, y) => then_partial(
                    head_order(n, i, v, m, j, w),
                    partial_order(*x, *y),
                ),
                _ => None,
            },
            ContentV::Sequence(xs) => match b {
                ContentV::Sequence(ys) => items_order(xs, ys, 0),
                _ => None,
            },
            ContentV::Tuple(xs) => match b {
                ContentV::Tuple(ys) => items_order(xs, ys, 0),
                _ => None,
            },
            ContentV::TupleStruct(n, xs) => match b {
                ContentV::TupleStruct(m, ys) => then_partial(
                    chars_order(n, m, 0),
                    items_order(xs, ys, 0),
                ),
                _ => None,
            },
            ContentV::TupleVariant(n, i, v, xs) => match b {
                ContentV::TupleVariant(m, j, w, ys) => then_partial(
                    head_order(n, i, v, m, j, w),
                    items_order(xs, ys, 0),
                ),
                _ => None,
            },
            ContentV::Mapping(es) => match b {
                ContentV::Mapping(fs) => entries_order(es, fs, 0),
                _ => None,
            },
            ContentV::Struct(n, es) => match b {
                ContentV::Struct(m, fs) => then_partial(
                    chars_order(n, m, 0),
                    fields_order(es, fs, 0),
                ),
                _ => None,
            },
            ContentV::StructVariant(n, i, v, es) => match b {
                ContentV::StructVariant(m, j, w, fs) => then_partial(
                    head_order(n, i, v, m, j, w),
                    fields_order(es, fs, 0),
                ),
                _ => None,
            },
            _ => None,
        }
    }
}

/// The lexicographic order of two sequences of values from position `i`
/// on: by the first pair that is not equal, else by length.
pub open spec fn items_order(xs: Seq<ContentV>, ys: Seq<ContentV>, i: nat) -> Option<Order>
    decreases xs, xs.len() - i,
{
    if i >= xs.len() || i >= ys.len() {
        Some(order_of(xs.len() as int, ys.len() as int))
    } else {
        proof {
            assert(decreases_to!(xs => xs[i as int]));
        }
        match partial_order(xs[i as int], ys[i as int]) {
            Some(Order::Equal) => items_order(xs, ys, i + 1),
            o => o,
        }
    }
}

/// The order of two map entries: by key, then by value.
pub open spec fn entry_pair_order(e: (ContentV, ContentV), f: (ContentV, ContentV)) -> Option<Order>
    decreases e, 0nat,
{
    match partial_order(e.0, f.0) {
        Some(Order::Equal) => partial_order(e.1, f.1),
        o => o,
    }
}

/// The lexicographic order of two sequences of map entries from `i` on.
pub open spec fn entries_order(es: Seq<(ContentV, ContentV)>, fs: Seq<(ContentV, ContentV)>, i: nat) -> Option<
    Order,
>
    decreases es, es.len() - i,
{
    if i >= es.len() || i >= fs.len() {
        Some(order_of(es.len() as int, fs.len() as int))
    } else {
        proof {
            assert(decreases_to!(es => es[i as int]));
        }
        match entry_pair_order(es[i as int], fs[i as int]) {
            Some(Order::Equal) => entries_order(es, fs, i + 1),
            o => o,
        }
    }
}

/// The order of two struct fields: by name, then by value.
pub open spec fn field_pair_order(e: (Seq<char>, ContentV), f: (Seq<char>, ContentV)) -> Option<Order>
    decreases e, 0nat,
{
    then_partial(chars_order(e.0, f.0, 0), partial_order(e.1, f.1))
}

/// The lexicographic order of two sequences of struct fields from `i` on.
pub open spec fn fields_order(es: Seq<(Seq<char>, ContentV)>, fs: Seq<(Seq<char>, ContentV)>, i: nat) -> Option<
    Order,
>
    decreases es, es.len() - i,
{
    if i >= es.len() || i >= fs.len() {
        Some(order_of(es.len() as int, fs.len() as int))
    } else {
        proof {
            assert(decreases_to!(es => es[i as int]));
        }
        match field_pair_order(es[i as int], fs[i as int]) {
            Some(Order::Equal) => fields_order(es, fs, i + 1),
            o => o,
        }
    }
}

/// The order in which two map keys are sorted: by their scalar keys where
/// both have one, else structurally, where two keys that cannot be
/// ordered count as equal.
pub open spec fn entry_key_order(a: ContentV, b: ContentV) -> Order {
    if key_of(a) is Other || key_of(b) is Other {
        match partial_order(a, b) {
            Some(o) => o,
            None => Order::Equal,
        }
    } else {
        key_order(key_of(a), key_of(b))
    }
}

/// Whether the key `a` sorts strictly before the key `b`.
pub open spec fn sorts_before(a: ContentV, b: ContentV) -> bool {
    entry_key_order(a, b) is Less
}

// ---------------------------------------------------------------------
// Integer keys sort by their numbers
// ---------------------------------------------------------------------
/// The number an integer value holds (zero for anything else).
pub open spec fn int_value(c: ContentV) -> int {
    match c {
        ContentV::U8(n) => n as int,
        ContentV::U16(n) => n as int,
        ContentV::U32(n) => n as int,
        ContentV::U64(n) => n as int,
        ContentV::U128(n) => n as int,
        ContentV::I8(n) => n as int,
        ContentV::I16(n) => n as int,
        ContentV::I32(n) => n as int,
        ContentV::I64(n) => n as int,
        ContentV::I128(n) => n as int,
        _ => 0,
    }
}

/// Whether two integer map keys are compared as numbers: both signed of
/// 16 to 64 bits, both unsigned of 16 to 64 bits, or both of the same
/// 8-bit or 128-bit type.
pub open spec fn comparable_ints(a: ContentV, b: ContentV) -> bool {
    ||| (a is I16 || a is I32 || a is I64) && (b is I16 || b is I32 || b is I64)
    ||| (a is U16 || a is U32 || a is U64) && (b is U16 || b is U32 || b is U64)
    ||| a is I8 && b is I8
    ||| a is U8 && b is U8
    ||| a is I128 && b is I128
    ||| a is U128 && b is U128
}

/// Integer map keys sort by their numbers: the smaller number first, and
/// keys of the same number in either order.
pub proof fn lemma_int_keys_sort_by_number(a: ContentV, b: ContentV)
    requires
        comparable_ints(a, b),
    ensures
        (entry_key_order(a, b) is Less) == (int_value(a) < int_value(b)),
        (entry_key_order(a, b) is Equal) == (int_value(a) == int_value(b)),
        (entry_key_order(a, b) is Greater) == (int_value(a) > int_value(b)),
        sorts_before(a, b) == (int_value(a) < int_value(b)),
{
}

/// The two booleans sort `false` first.
pub proof fn lemma_bool_keys_sort_false_first()
    ensures
        sorts_before(ContentV::Bool(false), ContentV::Bool(true)),
        !sorts_before(ContentV::Bool(true), ContentV::Bool(false)),
{
}

/// Sorting map entries whose keys are integers compared as numbers lists
/// them in ascending order of their numbers.
pub proof fn lemma_sorted_int_keys_ascend<T>(s: Seq<(ContentV, T)>)
    requires
        forall|i: int, j: int| 0 <= i < s.len() && 0 <= j < s.len() ==> comparable_ints(
            #[trigger] s[i].0,
            #[trigger] s[j].0,
        ),
    ensures
        forall|i: int|
            0 < i < sort_by_key(s).len() ==> int_value(#[trigger] sort_by_key(s)[i - 1].0) <= int_value(
                sort_by_key(s)[i].0,
            ),
{
    broadcast use vstd::seq_lib::group_to_multiset_ensures;

    lemma_sort_by_key(s);
    let r = sort_by_key(s);
    assert forall|i: int| 0 < i < r.len() implies int_value(#[trigger] r[i - 1].0) <= int_value(
        r[i].0,
    ) by {
        assert(r.to_multiset().count(r[i]) > 0);
        assert(r.to_multiset().count(r[i - 1]) > 0);
        assert(s.contains(r[i]));
        assert(s.contains(r[i - 1]));
        let x = choose|x: int| 0 <= x < s.len() && s[x] == r[i];
        let y = choose|y: int| 0 <= y < s.len() && s[y] == r[i - 1];
        assert(comparable_ints(s[x].0, s[y].0));
        lemma_int_keys_sort_by_number(r[i].0, r[i - 1].0);
        assert(!sorts_before(r[i].0, r[i - 1].0));
    }
}

proof fn lemma_chars_order_skip(x: Seq<char>, y: Seq<char>, i: nat, k: nat)
    requires
        i <= k <= x.len(),
        k <= y.len(),
        forall|j: int| i <= j < k ==> x[j] == y[j],
    ensures
        chars_order(x, y, i) == chars_order(x, y, k),
    decreases k - i,
{
    if i < k {
        lemma_chars_order_skip(x, y, i + 1, k);
    }
}

/// String map keys sort lexicographically by character: a string sorts
/// before every longer string it starts, and before every string that
/// agrees with it up to a position where its character is smaller; equal
/// strings are equal keys.
pub proof fn lemma_string_keys_sort_lexicographically(x: Seq<char>, y: Seq<char>)
    ensures
        x.len() < y.len() && y.take(x.len() as int) == x ==> sorts_before(
            ContentV::String(x),
            ContentV::String(y),
        ),
        forall|k: int|
            0 <= k < x.len() && k < y.len() && x.take(k) == y.take(k) && (x[k] as int) < (
            y[k] as int) ==> sorts_before(ContentV::String(x), ContentV::String(y)),
        entry_key_order(ContentV::String(x), ContentV::String(x)) is Equal,
{
    if x.len() < y.len() && y.take(x.len() as int) == x {
        assert forall|j: int| 0 <= j < x.len() implies x[j] == y[j] by {
            assert(y.take(x.len() as int)[j] == y[j]);
        }
        lemma_chars_order_skip(x, y, 0, x.len());
    }
    assert forall|k: int|
        0 <= k < x.len() && k < y.len() && x.take(k) == y.take(k) && (x[k] as int) < (y[k] as int)
            implies sorts_before(ContentV::String(x), ContentV::String(y)) by {
        assert forall|j: int| 0 <= j < k implies x[j] == y[j] by {
            assert(x.take(k)[j] == x[j] && y.take(k)[j] == y[j]);
        }
        lemma_chars_order_skip(x, y, 0, k as nat);
        assert(x[k] != y[k]);
        assert(chars_order(x, y, k as nat) == order_of(x[k] as int, y[k] as int));
    }
    lemma_chars_order_skip(x, x, 0, x.len());
}

// ---------------------------------------------------------------------
// Each order reverses when its sides are swapped
// ---------------------------------------------------------------------
/// Swapping two strings reverses their order.
pub proof fn lemma_chars_order_reversed(a: Seq<char>, b: Seq<char>, i: nat)
    ensures
        chars_order(b, a, i) == chars_order(a, b, i).reversed(),
    decreases a.len() - i,
{
    if !(i >= a.len() || i >= b.len()) && a[i as int] == b[i as int] {
        lemma_chars_order_reversed(a, b, i + 1);
    }
}

/// Swapping two byte strings reverses their order.
pub proof fn lemma_bytes_order_reversed(a: Seq<u8>, b: Seq<u8>, i: nat)
    ensures
        bytes_order(b, a, i) == bytes_order(a, b, i).reversed(),
    decreases a.len() - i,
{
    if !(i >= a.len() || i >= b.len()) && a[i as int] == b[i as int] {
        lemma_bytes_order_reversed(a, b, i + 1);
    }
}

/// Swapping two keys reverses their order.
pub proof fn lemma_key_order_reversed(a: KeyV, b: KeyV)
    ensures
        key_order(b, a) == key_order(a, b).reversed(),
{
    match (a, b) {
        (KeyV::Str(x), KeyV::Str(y)) => lemma_chars_order_reversed(x, y, 0),
        (KeyV::Bytes(x), KeyV::Bytes(y)) => lemma_bytes_order_reversed(x, y, 0),
        _ => {},
    }
}

proof fn lemma_head_order_reversed(
    n: Seq<char>,
    i: u32,
    v: Seq<char>,
    m: Seq<char>,
    j: u32,
    w: Seq<char>,
)
    ensures
        head_order(m, j, w, n, i, v) == head_order(n, i, v, m, j, w).reversed(),
{
    lemma_chars_order_reversed(n, m, 0);
    lemma_chars_order_reversed(v, w, 0);
}

/// Swapping two scalars of the same variant reverses their order.
#[verifier::rlimit(40)]
pub proof fn lemma_scalar_order_reversed(a: ContentV, b: ContentV)
    requires
        variant_rank(a) == variant_rank(b),
    ensures
        scalar_order(b, a) == reversed_partial(scalar_order(a, b)),
{
    match a {
        ContentV::Bool(x) => match b {
            ContentV::Bool(y) => {
                assert(scalar_order(b, a) == reversed_partial(scalar_order(a, b)));
            },
            _ => {},
        },
        ContentV::U8(x) => match b {
            ContentV::U8(y) => {
                assert(scalar_order(b, a) == reversed_partial(scalar_order(a, b)));
            },
            _ => {},
        },
        ContentV::U16(x) => match b {
            ContentV::U16(y) => {
                assert(scalar_order(b, a) == reversed_partial(scalar_order(a, b)));
            },
            _ => {},
        },
        ContentV::U32(x) => match b {
            ContentV::U32(y) => {
                assert(scalar_order(b, a) == reversed_partial(scalar_order(a, b)));
            },
            _ => {},
        },
        ContentV::U64(x) => match b {
            ContentV::U64(y) => {
                assert(scalar_order(b, a) == reversed_partial(scalar_order(a, b)));
            },
            _ => {},
        },
        ContentV::U128(x) => match b {
            ContentV::U128(y) => {
                assert(scalar_order(b, a) == reversed_partial(scalar_order(a, b)));
            },
            _ => {},
        },
        ContentV::I8(x) => match b {
            ContentV::I8(y) => {
                assert(scalar_order(b, a) == reversed_partial(scalar_order(a, b)));
            },
            _ => {},
        },
        ContentV::I16(x) => match b {
            ContentV::I16(y) => {
                assert(scalar_order(b, a) == reversed_partial(scalar_order(a, b)));
            },
            _ => {},
        },
        ContentV::I32(x) => match b {
            ContentV::I32(y) => {
                assert(scalar_order(b, a) == reversed_partial(scalar_order(a, b)));
            },
            _ => {},
        },
        ContentV::I64(x) => match b {
            ContentV::I64(y) => {
                assert(scalar_order(b, a) == reversed_partial(scalar_order(a, b)));
            },
            _ => {},
        },
        ContentV::I128(x) => match b {
            ContentV::I128(y) => {
                assert(scalar_order(b, a) == reversed_partial(scalar_order(a, b)));
            },
            _ => {},
        },
        ContentV::F32(x) => match b {
            ContentV::F32(y) => {
                assert(scalar_order(b, a) == reversed_partial(scalar_order(a, b)));
            },
            _ => {},
        },
        ContentV::F64(x) => match b {
            ContentV::F64(y) => {
                assert(scalar_order(b, a) == reversed_partial(scalar_order(a, b)));
            },
            _ => {},
        },
        ContentV::Char(x) => match b {
            ContentV::Char(y) => {
                assert(scalar_order(b, a) == reversed_partial(scalar_order(a, b)));
            },
            _ => {},
        },
        ContentV::String(x) => match b {
            ContentV::String(y) => {
                lemma_chars_order_reversed(x, y, 0);
            },
            _ => {},
        },
        ContentV::Bytes(x) => match b {
            ContentV::Bytes(y) => {
                lemma_bytes_order_reversed(x, y, 0);
            },
            _ => {},
        },
        _ => {},
    }
}

/// Swapping two values reverses their structural order.
#[verifier::rlimit(60)]
pub proof fn lemma_partial_order_reversed(a: ContentV, b: ContentV)
    ensures
        partial_order(b, a) == reversed_partial(partial_order(a, b)),
    decreases a, 0nat,
{
    if variant_rank(a) == variant_rank(b) && variant_rank(a) < 16 {
        lemma_scalar_order_reversed(a, b);
    } else if variant_rank(a) == variant_rank(b) {
        match a {
            ContentV::Wrapped(x) => match b {
                ContentV::Wrapped(y) => lemma_partial_order_reversed(*x, *y),
                _ => {},
            },
            ContentV::UnitStruct(n) => match b {
                ContentV::UnitStruct(m) => lemma_chars_order_reversed(n, m, 0),
                _ => {},
            },
            ContentV::UnitVariant(n, i, v) => match b {
                ContentV::UnitVariant(m, j, w) => lemma_head_order_reversed(n, i, v, m, j, w),
                _ => {},
            },
            ContentV::NewtypeStruct(n, x) => match b {
                ContentV::NewtypeStruct(m, y) => {
                    lemma_chars_order_reversed(n, m, 0);
                    lemma_partial_order_reversed(*x, *y);
                },
                _ => {},
            },
            ContentV::NewtypeVariant(n, i, v, x) => match b {
                ContentV::NewtypeVariant(m, j, w, y) => {
                    lemma_head_order_reversed(n, i, v, m, j, w);
                    lemma_partial_order_reversed(*x, *y);
                },
                _ => {},
            },
            ContentV::Sequence(xs) => match b {
                ContentV::Sequence(ys) => lemma_items_order_reversed(xs, ys, 0),
                _ => {},
            },
            ContentV::Tuple(xs) => match b {
                ContentV::Tuple(ys) => lemma_items_order_reversed(xs, ys, 0),
                _ => {},
            },
            ContentV::TupleStruct(n, xs) => match b {
                ContentV::TupleStruct(m, ys) => {
                    lemma_chars_order_reversed(n, m, 0);
                    lemma_items_order_reversed(xs, ys, 0);
                },
                _ => {},
            },
            ContentV::TupleVariant(n, i, v, xs) => match b {
                ContentV::TupleVariant(m, j, w, ys) => {
                    lemma_head_order_reversed(n, i, v, m, j, w);
                    lemma_items_order_reversed(xs, ys, 0);
                },
                _ => {},
            },
            ContentV::Mapping(es) => match b {
                ContentV::Mapping(fs) => lemma_entries_order_reversed(es, fs, 0),
                _ => {},
            },
            ContentV::Struct(n, es) => match b {
                ContentV::Struct(m, fs) => {
                    lemma_chars_order_reversed(n, m, 0);
                    lemma_fields_order_reversed(es, fs, 0);
                },
                _ => {},
            },
            ContentV::StructVariant(n, i, v, es) => match b {
                ContentV::StructVariant(m, j, w, fs) => {
                    lemma_head_order_reversed(n, i, v, m, j, w);
                    lemma_fields_order_reversed(es, fs, 0);
                },
                _ => {},
            },
            _ => {},
        }
    }
}

/// Swapping two sequences of values reverses their order.
pub proof fn lemma_items_order_reversed(xs: Seq<ContentV>, ys: Seq<ContentV>, i: nat)
    ensures
        items_order(ys, xs, i) == reversed_partial(items_order(xs, ys, i)),
    decreases xs, xs.len() - i,
{
    if !(i >= xs.len() || i >= ys.len()) {
        assert(decreases_to!(xs => xs[i as int]));
        lemma_partial_order_reversed(xs[i as int], ys[i as int]);
        lemma_items_order_reversed(xs, ys, i + 1);
    }
}

/// Swapping two sequences of map entries reverses their order.
pub proof fn lemma_entries_order_reversed(
    es: Seq<(ContentV, ContentV)>,
    fs: Seq<(ContentV, ContentV)>,
    i: nat,
)
    ensures
        entries_order(fs, es, i) == reversed_partial(entries_order(es, fs, i)),
    decreases es, es.len() - i,
{
    if !(i >= es.len() || i >= fs.len()) {
        let e = es[i as int];
        let f = fs[i as int];
        assert(decreases_to!(es => es[i as int]));
        assert(decreases_to!(e => e.0));
        assert(decreases_to!(e => e.1));
        lemma_partial_order_reversed(e.0, f.0);
        lemma_partial_order_reversed(e.1, f.1);
        assert(entry_pair_order(f, e) == reversed_partial(entry_pair_order(e, f)));
        lemma_entries_order_reversed(es, fs, i + 1);
    }
}

/// Swapping two sequences of struct fields reverses their order.
pub proof fn lemma_fields_order_reversed(
    es: Seq<(Seq<char>, ContentV)>,
    fs: Seq<(Seq<char>, ContentV)>,
    i: nat,
)
    ensures
        fields_order(fs, es, i) == reversed_partial(fields_order(es, fs, i)),
    decreases es, es.len() - i,
{
    if !(i >= es.len() || i >= fs.len()) {
        let e = es[i as int];
        let f = fs[i as int];
        assert(decreases_to!(es => es[i as int]));
        assert(decreases_to!(e => e.1));
        lemma_chars_order_reversed(e.0, f.0, 0);
        lemma_partial_order_reversed(e.1, f.1);
        assert(field_pair_order(f, e) == reversed_partial(field_pair_order(e, f)));
        lemma_fields_order_reversed(es, fs, i + 1);
    }
}

/// Swapping two map keys reverses the order in which they are sorted, so
/// no key sorts both before and after another.
pub proof fn lemma_entry_key_order_reversed(a: ContentV, b: ContentV)
    ensures
        entry_key_order(b, a) == entry_key_order(a, b).reversed(),
        sorts_before(a, b) ==> !sorts_before(b, a),
{
    lemma_partial_order_reversed(a, b);
    lemma_key_order_reversed(key_of(a), key_of(b));
}

// ---------------------------------------------------------------------
// Sorting map entries
// ---------------------------------------------------------------------
/// Inserts `x` into `s` behind the last entry whose key `x` does not sort
/// before.
pub open spec fn insert_by_key<T>(s: Seq<(ContentV, T)>, x: (ContentV, T)) -> Seq<(ContentV, T)>
    decreases s.len(),
{
    if s.len() == 0 {
        seq![x]
    } else if sorts_before(x.0, s.last().0) {
        insert_by_key(s.drop_last(), x).push(s.last())
    } else {
        s.push(x)
    }
}

/// The entries of `s` stably sorted by their keys.
pub open spec fn sort_by_key<T>(s: Seq<(ContentV, T)>) -> Seq<(ContentV, T)>
    decreases s.len(),
{
    if s.len() == 0 {
        s
    } else {
        insert_by_key(sort_by_key(s.drop_last()), s.last())
    }
}

/// Whether no entry's key sorts before the key of the entry ahead of it.
pub open spec fn key_sorted<T>(s: Seq<(ContentV, T)>) -> bool {
    forall|i: int| 0 < i < s.len() ==> !sorts_before(#[trigger] s[i].0, s[i - 1].0)
}

/// Inserting adds the entry and keeps the others.
proof fn lemma_insert_by_key_multiset<T>(s: Seq<(ContentV, T)>, x: (ContentV, T))
    ensures
        insert_by_key(s, x).to_multiset() =~= s.to_multiset().insert(x),
        insert_by_key(s, x).len() == s.len() + 1,
    decreases s.len(),
{
    broadcast use vstd::seq_lib::group_to_multiset_ensures;

    if s.len() == 0 {
        assert(seq![x] =~= Seq::<(ContentV, T)>::empty().push(x));
    } else {
        let l = s.last();
        let d = s.drop_last();
        assert(s =~= d.push(l));
        if sorts_before(x.0, l.0) {
            lemma_insert_by_key_multiset(d, x);
        }
    }
}

/// The last entry after an insertion is the inserted one or the last
/// one before.
proof fn lemma_insert_by_key_last<T>(s: Seq<(ContentV, T)>, x: (ContentV, T))
    ensures
        insert_by_key(s, x).last() == x || (s.len() > 0 && insert_by_key(s, x).last() == s.last()),
        s.len() > 0 && !sorts_before(x.0, s.last().0) ==> insert_by_key(s, x).last() == x,
    decreases s.len(),
{
}

/// Inserting into sorted entries keeps them sorted.
proof fn lemma_insert_by_key_sorted<T>(s: Seq<(ContentV, T)>, x: (ContentV, T))
    requires
        key_sorted(s),
    ensures
        key_sorted(insert_by_key(s, x)),
    decreases s.len(),
{
    if s.len() > 0 {
        let l = s.last();
        let d = s.drop_last();
        if sorts_before(x.0, l.0) {
            assert(key_sorted(d)) by {
                assert forall|i: int| 0 < i < d.len() implies !sorts_before(
                    #[trigger] d[i].0,
                    d[i - 1].0,
                ) by {
                    assert(d[i] == s[i] && d[i - 1] == s[i - 1]);
                }
            }
            lemma_insert_by_key_sorted(d, x);
            lemma_insert_by_key_multiset(d, x);
            lemma_insert_by_key_last(d, x);
            let r = insert_by_key(d, x);
            let r2 = r.push(l);
            assert forall|i: int| 0 < i < r2.len() implies !sorts_before(
                #[trigger] r2[i].0,
                r2[i - 1].0,
            ) by {
                if i == r2.len() - 1 {
                    if r.last() == x {
                        lemma_entry_key_order_reversed(x.0, l.0);
                    } else {
                        assert(r.last() == d.last());
                        assert(d.last() == s[s.len() - 2]);
                    }
                } else {
                    assert(r2[i] == r[i] && r2[i - 1] == r[i - 1]);
                }
            }
        } else {
            let r2 = s.push(x);
            assert forall|i: int| 0 < i < r2.len() implies !sorts_before(
                #[trigger] r2[i].0,
                r2[i - 1].0,
            ) by {
                if i < s.len() {
                    assert(r2[i] == s[i] && r2[i - 1] == s[i - 1]);
                }
            }
        }
    }
}

/// Sorting keeps every entry, as often as it occurs, and puts them in
/// order: no entry's key sorts before the key of the entry ahead of it.
pub proof fn lemma_sort_by_key<T>(s: Seq<(ContentV, T)>)
    ensures
        sort_by_key(s).len() == s.len(),
        sort_by_key(s).to_multiset() =~= s.to_multiset(),
        key_sorted(sort_by_key(s)),
    decreases s.len(),
{
    broadcast use vstd::seq_lib::group_to_multiset_ensures;

    if s.len() > 0 {
        let d = s.drop_last();
        lemma_sort_by_key(d);
        lemma_insert_by_key_multiset(sort_by_key(d), s.last());
        lemma_insert_by_key_sorted(sort_by_key(d), s.last());
        assert(s =~= d.push(s.last()));
    }
}

// ---------------------------------------------------------------------
// Sorting every map in a value
// ---------------------------------------------------------------------
/// The value with the entries of every map in it sorted by key.  A map's
/// entries are sorted by their keys as they were before the maps inside
/// the keys were sorted; then the maps inside keys and values are sorted.
pub open spec fn maps_sorted(c: ContentV) -> ContentV
    decreases c, 0nat,
{
    match c {
        ContentV::Wrapped(x) => ContentV::Wrapped(Box::new(maps_sorted(*x))),
        ContentV::NewtypeStruct(n, x) => ContentV::NewtypeStruct(n, Box::new(maps_sorted(*x))),
        ContentV::NewtypeVariant(n, i, v, x) => ContentV::NewtypeVariant(
            n,
            i,
            v,
            Box::new(maps_sorted(*x)),
        ),
        ContentV::Sequence(xs) => ContentV::Sequence(sorted_items(xs, xs.len())),
        ContentV::Tuple(xs) => ContentV::Tuple(sorted_items(xs, xs.len())),
        ContentV::TupleStruct(n, xs) => ContentV::TupleStruct(n, sorted_items(xs, xs.len())),
        ContentV::TupleVariant(n, i, v, xs) => ContentV::TupleVariant(
            n,
            i,
            v,
            sorted_items(xs, xs.len()),
        ),
        ContentV::Mapping(es) => ContentV::Mapping(
            untagged(sort_by_key(tagged_entries(es, es.len()))),
        ),
        ContentV::Struct(n, fs) => ContentV::Struct(n, sorted_fields(fs, fs.len())),
        ContentV::StructVariant(n, i, v, fs) => ContentV::StructVariant(
            n,
            i,
            v,
            sorted_fields(fs, fs.len()),
        ),
        _ => c,
    }
}

/// The first `n` items, each with its maps sorted.
pub open spec fn sorted_items(xs: Seq<ContentV>, n: nat) -> Seq<ContentV>
    decreases xs, n,
{
    if n == 0 || n > xs.len() {
        seq![]
    } else {
        proof {
            assert(decreases_to!(xs => xs[n - 1]));
        }
        sorted_items(xs, (n - 1) as nat).push(maps_sorted(xs[n - 1]))
    }
}

/// The first `n` map entries, each under its original key, with the maps
/// in its key and value sorted.
pub open spec fn tagged_entries(es: Seq<(ContentV, ContentV)>, n: nat) -> Seq<
    (ContentV, (ContentV, ContentV)),
>
    decreases es, n,
{
    if n == 0 || n > es.len() {
        seq![]
    } else {
        let e = es[n - 1];
        proof {
            assert(decreases_to!(es => es[n - 1]));
            assert(decreases_to!(e => e.0));
            assert(decreases_to!(e => e.1));
        }
        tagged_entries(es, (n - 1) as nat).push((e.0, (maps_sorted(e.0), maps_sorted(e.1))))
    }
}

/// The first `n` struct fields, each with the maps in its value sorted.
pub open spec fn sorted_fields(fs: Seq<(Seq<char>, ContentV)>, n: nat) -> Seq<
    (Seq<char>, ContentV),
>
    decreases fs, n,
{
    if n == 0 || n > fs.len() {
        seq![]
    } else {
        let f = fs[n - 1];
        proof {
            assert(decreases_to!(fs => fs[n - 1]));
            assert(decreases_to!(f => f.1));
        }
        sorted_fields(fs, (n - 1) as nat).push((f.0, maps_sorted(f.1)))
    }
}

/// The entries without the keys they were sorted by.
pub open spec fn untagged(s: Seq<(ContentV, (ContentV, ContentV))>) -> Seq<(ContentV, ContentV)> {
    Seq::new(s.len(), |i: int| s[i].1)
}

proof fn lemma_sorted_items_len(xs: Seq<ContentV>, n: nat)
    requires
        n <= xs.len(),
    ensures
        sorted_items(xs, n).len() == n,
    decreases n,
{
    if n > 0 {
        lemma_sorted_items_len(xs, (n - 1) as nat);
    }
}

proof fn lemma_tagged_entries_len(es: Seq<(ContentV, ContentV)>, n: nat)
    requires
        n <= es.len(),
    ensures
        tagged_entries(es, n).len() == n,
    decreases n,
{
    if n > 0 {
        lemma_tagged_entries_len(es, (n - 1) as nat);
    }
}

// ---------------------------------------------------------------------
// Comparing
// ---------------------------------------------------------------------
/// The order of two integers.
pub fn order_i128(a: i128, b: i128) -> (r: Order)
    ensures
        r == order_of(a as int, b as int),
{
    if a < b {
        Order::Less
    } else if a == b {
        Order::Equal
    } else {
        Order::Greater
    }
}

/// The order of two unsigned integers.
pub fn order_u128(a: u128, b: u128) -> (r: Order)
    ensures
        r == order_of(a as int, b as int),
{
    if a < b {
        Order::Less
    } else if a == b {
        Order::Equal
    } else {
        Order::Greater
    }
}

/// The lexicographic order of two strings.
pub fn compare_strs(a: &str, b: &str) -> (r: Order)
    ensures
        r == chars_order(a@, b@, 0),
{
    let x = chars_of(a);
    let y = chars_of(b);
    let mut i: usize = 0;
    while i < x.len() && i < y.len()
        invariant
            x@ == a@,
            y@ == b@,
            i <= x@.len(),
            i <= y@.len(),
            chars_order(a@, b@, 0) == chars_order(a@, b@, i as nat),
        decreases x.len() - i,
    {
        if x[i] != y[i] {
            if x[i] < y[i] {
                return Order::Less;
            } else {
                return Order::Greater;
            }
        }
        i += 1;
    }
    order_u128(x.len() as u128, y.len() as u128)
}

/// The lexicographic order of two byte strings.
pub fn compare_bytes(a: &[u8], b: &[u8]) -> (r: Order)
    ensures
        r == bytes_order(a@, b@, 0),
{
    let mut i: usize = 0;
    while i < a.len() && i < b.len()
        invariant
            i <= a@.len(),
            i <= b@.len(),
            bytes_order(a@, b@, 0) == bytes_order(a@, b@, i as nat),
        decreases a.len() - i,
    {
        if a[i] != b[i] {
            return order_u128(a[i] as u128, b[i] as u128);
        }
        i += 1;
    }
    order_u128(a.len() as u128, b.len() as u128)
}

/// The bits of the 64-bit float equal to the 32-bit float with the given
/// bits.
pub fn widen_f32_bits(bits: u32) -> (r: u64)
    ensures
        r == widened(bits as u64),
{
    let b = bits as u64;
    let sign: u64 = if (b / 0x8000_0000) % 2 == 1 {
        0x8000_0000_0000_0000
    } else {
        0
    };
    let e: u64 = (b / 0x80_0000) % 256;
    let m: u64 = b % 0x80_0000;
    let rest: u64 = if e == 255 {
        if m == 0 {
            2047 * 0x10_0000_0000_0000
        } else if m >= 0x40_0000 {
            2047 * 0x10_0000_0000_0000 + m * 0x2000_0000
        } else {
            2047 * 0x10_0000_0000_0000 + (m + 0x40_0000) * 0x2000_0000
        }
    } else if e == 0 {
        if m == 0 {
            0
        } else {
            let mut mm: u64 = m;
            let mut k: u64 = 0;
            proof {
                vstd::arithmetic::power2::lemma2_to64();
            }
            loop
                invariant
                    normalized(m as nat, 0) == normalized(mm as nat, k as nat),
                    0 < mm < 0x100_0000,
                    k <= 23,
                    mm >= vstd::arithmetic::power2::pow2(k as nat),
                    vstd::arithmetic::power2::pow2(23) == 0x80_0000,
                ensures
                    normalized(m as nat, 0) == (mm as nat, k as nat),
                    0x80_0000 <= mm < 0x100_0000,
                    k <= 23,
                decreases 23 - k,
            {
                if mm >= 0x80_0000 || k >= 23 {
                    proof {
                        if k >= 23 {
                            assert(k == 23);
                        }
                    }
                    break;
                }
                proof {
                    vstd::arithmetic::power2::lemma_pow2_unfold((k + 1) as nat);
                }
                mm = 2 * mm;
                k += 1;
            }
            (897 - k) * 0x10_0000_0000_0000 + (mm - 0x80_0000) * 0x2000_0000
        }
    } else {
        (e + 896) * 0x10_0000_0000_0000 + m * 0x2000_0000
    };
    sign + rest
}

/// Whether the bits of a 64-bit float are a NaN.
fn f64_bits_nan(bits: u64) -> (r: bool)
    ensures
        r == f64_is_nan(bits),
{
    (bits / 0x10_0000_0000_0000) % 2048 == 2047 && bits % 0x10_0000_0000_0000 != 0
}

/// Whether the bits of a 32-bit float are a NaN.
fn f32_bits_nan(bits: u32) -> (r: bool)
    ensures
        r == f32_is_nan(bits as u64),
{
    (bits / 0x80_0000) % 256 == 255 && bits % 0x80_0000 != 0
}

/// The rank of a 64-bit float.
fn f64_bits_rank(bits: u64) -> (r: i128)
    ensures
        r == f64_rank(bits),
{
    if bits >= 0x8000_0000_0000_0000 {
        -((bits - 0x8000_0000_0000_0000) as i128)
    } else {
        bits as i128
    }
}

/// The rank of a 32-bit float.
fn f32_bits_rank(bits: u32) -> (r: i128)
    ensures
        r == f32_rank(bits as u64),
{
    if bits >= 0x8000_0000 {
        -((bits - 0x8000_0000) as i128)
    } else {
        bits as i128
    }
}

/// The order of two floats by value.
fn compare_floats(nan_a: bool, nan_b: bool, rank_a: i128, rank_b: i128) -> (r: Option<Order>)
    ensures
        r == float_order(nan_a, nan_b, rank_a as int, rank_b as int),
{
    if nan_a || nan_b {
        None
    } else {
        Some(order_i128(rank_a, rank_b))
    }
}

/// The key by which a map key is sorted.
#[derive(Debug)]
pub enum Key<'a> {
    Bool(bool),
    U64(u64),
    I64(i64),
    F64(u64),
    U128(u128),
    I128(i128),
    Str(&'a str),
    Bytes(&'a [u8]),
    Other,
}

impl<'a> View for Key<'a> {
    type V = KeyV;

    open spec fn view(&self) -> KeyV {
        match *self {
            Key::Bool(b) => KeyV::Bool(b),
            Key::U64(n) => KeyV::U64(n),
            Key::I64(n) => KeyV::I64(n),
            Key::F64(n) => KeyV::F64(n),
            Key::U128(n) => KeyV::U128(n),
            Key::I128(n) => KeyV::I128(n),
            Key::Str(s) => KeyV::Str(s@),
            Key::Bytes(b) => KeyV::Bytes(b@),
            Key::Other => KeyV::Other,
        }
    }
}

impl Content {
    /// The key by which this value is sorted as a map key.
    pub fn as_key(&self) -> (r: Key<'_>)
        ensures
            r@ == key_of(self@),
    {
        match self.resolve_inner() {
            Content::Bool(v) => Key::Bool(*v),
            Content::Char(c) => Key::U64(*c as u32 as u64),
            Content::U16(v) => Key::U64(*v as u64),
            Content::U32(v) => Key::U64(*v as u64),
            Content::U64(v) => Key::U64(*v),
            Content::U128(v) => Key::U128(*v),
            Content::I16(v) => Key::I64(*v as i64),
            Content::I32(v) => Key::I64(*v as i64),
            Content::I64(v) => Key::I64(*v),
            Content::I128(v) => Key::I128(*v),
            Content::F32(f) => Key::F64(widen_f32_bits(f.bits)),
            Content::F64(f) => Key::F64(f.bits),
            Content::String(s) => Key::Str(s.as_str()),
            Content::Bytes(b) => Key::Bytes(b.as_slice()),
            _ => Key::Other,
        }
    }
}

fn key_kind_of(k: &Key) -> (r: u8)
    ensures
        r as int == key_kind(k@),
{
    match k {
        Key::Bool(_) => 1,
        Key::U64(_) => 2,
        Key::I64(_) => 3,
        Key::F64(_) => 4,
        Key::U128(_) => 5,
        Key::I128(_) => 6,
        Key::Str(_) => 7,
        Key::Bytes(_) => 8,
        Key::Other => 9,
    }
}

fn total_rank_of(bits: u64) -> (r: i128)
    ensures
        r == total_rank(bits),
{
    if bits < 0x8000_0000_0000_0000 {
        bits as i128
    } else {
        0x7fff_ffff_ffff_ffff - (bits as i128)
    }
}

/// The total order of two keys.
pub fn compare_keys(a: &Key, b: &Key) -> (r: Order)
    ensures
        r == key_order(a@, b@),
{
    let ka = key_kind_of(a);
    let kb = key_kind_of(b);
    if ka != kb {
        return order_i128(ka as i128, kb as i128);
    }
    match a {
        Key::Bool(x) => match b {
            Key::Bool(y) => order_i128(
                if *x {
                    1
                } else {
                    0
                },
                if *y {
                    1
                } else {
                    0
                },
            ),
            _ => Order::Equal,
        },
        Key::U64(x) => match b {
            Key::U64(y) => order_u128(*x as u128, *y as u128),
            _ => Order::Equal,
        },
        Key::I64(x) => match b {
            Key::I64(y) => order_i128(*x as i128, *y as i128),
            _ => Order::Equal,
        },
        Key::F64(x) => match b {
            Key::F64(y) => order_i128(total_rank_of(*x), total_rank_of(*y)),
            _ => Order::Equal,
        },
        Key::U128(x) => match b {
            Key::U128(y) => order_u128(*x, *y),
            _ => Order::Equal,
        },
        Key::I128(x) => match b {
            Key::I128(y) => order_i128(*x, *y),
            _ => Order::Equal,
        },
        Key::Str(x) => match b {
            Key::Str(y) => compare_strs(x, y),
            _ => Order::Equal,
        },
        Key::Bytes(x) => match b {
            Key::Bytes(y) => compare_bytes(x, y),
            _ => Order::Equal,
        },
        Key::Other => Order::Equal,
    }
}

// ---------------------------------------------------------------------
// Structural comparison
// ---------------------------------------------------------------------
/// The position of a value's variant in the declaration of `Content`.
fn variant_index(c: &Content) -> (r: u8)
    ensures
        r as int == variant_rank(c@),
{
    match c {
        Content::Bool(_) => 0,
        Content::U8(_) => 1,
        Content::U16(_) => 2,
        Content::U32(_) => 3,
        Content::U64(_) => 4,
        Content::U128(_) => 5,
        Content::I8(_) => 6,
        Content::I16(_) => 7,
        Content::I32(_) => 8,
        Content::I64(_) => 9,
        Content::I128(_) => 10,
        Content::F32(_) => 11,
        Content::F64(_) => 12,
        Content::Char(_) => 13,
        Content::String(_) => 14,
        Content::Bytes(_) => 15,
        Content::Nothing => 16,
        Content::Wrapped(_) => 17,
        Content::Unit => 18,
        Content::UnitStruct(_) => 19,
        Content::UnitVariant(_, _, _) => 20,
        Content::NewtypeStruct(_, _) => 21,
        Content::NewtypeVariant(_, _, _, _) => 22,
        Content::Sequence(_) => 23,
        Content::Tuple(_) => 24,
        Content::TupleStruct(_, _) => 25,
        Content::TupleVariant(_, _, _, _) => 26,
        Content::Mapping(_) => 27,
        Content::Struct(_, _) => 28,
        Content::StructVariant(_, _, _, _) => 29,
    }
}

/// The order of two scalars of the same variant.
fn compare_scalars(a: &Content, b: &Content) -> (r: Option<Order>)
    ensures
        r == scalar_order(a@, b@),
{
    match a {
        Content::Bool(x) => match b {
            Content::Bool(y) => Some(order_i128(if *x { 1 } else { 0 }, if *y { 1 } else { 0 })),
            _ => None,
        },
        Content::U8(x) => match b {
            Content::U8(y) => Some(order_u128(*x as u128, *y as u128)),
            _ => None,
        },
        Content::U16(x) => match b {
            Content::U16(y) => Some(order_u128(*x as u128, *y as u128)),
            _ => None,
        },
        Content::U32(x) => match b {
            Content::U32(y) => Some(order_u128(*x as u128, *y as u128)),
            _ => None,
        },
        Content::U64(x) => match b {
            Content::U64(y) => Some(order_u128(*x as u128, *y as u128)),
            _ => None,
        },
        Content::U128(x) => match b {
            Content::U128(y) => Some(order_u128(*x, *y)),
            _ => None,
        },
        Content::I8(x) => match b {
            Content::I8(y) => Some(order_i128(*x as i128, *y as i128)),
            _ => None,
        },
        Content::I16(x) => match b {
            Content::I16(y) => Some(order_i128(*x as i128, *y as i128)),
            _ => None,
        },
        Content::I32(x) => match b {
            Content::I32(y) => Some(order_i128(*x as i128, *y as i128)),
            _ => None,
        },
        Content::I64(x) => match b {
            Content::I64(y) => Some(order_i128(*x as i128, *y as i128)),
            _ => None,
        },
        Content::I128(x) => match b {
            Content::I128(y) => Some(order_i128(*x, *y)),
            _ => None,
        },
        Content::Char(x) => match b {
            Content::Char(y) => Some(if *x < *y { Order::Less } else if *x == *y { Order::Equal } else { Order::Greater }),
            _ => None,
        },
        Content::String(x) => match b {
            Content::String(y) => Some(compare_strs(x.as_str(), y.as_str())),
            _ => None,
        },
        Content::Bytes(x) => match b {
            Content::Bytes(y) => Some(compare_bytes(x.as_slice(), y.as_slice())),
            _ => None,
        },
        Content::F32(x) => match b {
            Content::F32(y) => compare_floats(
                f32_bits_nan(x.bits),
                f32_bits_nan(y.bits),
                f32_bits_rank(x.bits),
                f32_bits_rank(y.bits),
            ),
            _ => None,
        },
        Content::F64(x) => match b {
            Content::F64(y) => compare_floats(
                f64_bits_nan(x.bits),
                f64_bits_nan(y.bits),
                f64_bits_rank(x.bits),
                f64_bits_rank(y.bits),
            ),
            _ => None,
        },
        _ => None,
    }
}

/// The order of the names and indices that head two variants.
fn compare_heads(n: &String, i: u32, v: &String, m: &String, j: u32, w: &String) -> (r: Order)
    ensures
        r == head_order(n@, i, v@, m@, j, w@),
{
    let first = compare_strs(n.as_str(), m.as_str());
    if !matches!(first, Order::Equal) {
        return first;
    }
    let second = order_u128(i as u128, j as u128);
    if !matches!(second, Order::Equal) {
        return second;
    }
    compare_strs(v.as_str(), w.as_str())
}

/// The structural order of two values, where there is one.
pub fn partial_compare(a: &Content, b: &Content) -> (r: Option<Order>)
    ensures
        r == partial_order(a@, b@),
    decreases a, 1nat,
{
    let ra = variant_index(a);
    let rb = variant_index(b);
    if ra != rb {
        return Some(order_i128(ra as i128, rb as i128));
    }
    if ra < 16 {
        return compare_scalars(a, b);
    }
    match a {
        Content::Nothing => Some(Order::Equal),
        Content::Unit => Some(Order::Equal),
        Content::Wrapped(x) => match b {
            Content::Wrapped(y) => partial_compare(x, y),
            _ => None,
        },
        Content::UnitStruct(n) => match b {
            Content::UnitStruct(m) => Some(compare_strs(n.as_str(), m.as_str())),
            _ => None,
        },
        Content::UnitVariant(n, i, v) => match b {
            Content::UnitVariant(m, j, w) => Some(compare_heads(n, *i, v, m, *j, w)),
            _ => None,
        },
        Content::NewtypeStruct(n, x) => match b {
            Content::NewtypeStruct(m, y) => {
                let h = compare_strs(n.as_str(), m.as_str());
                if !matches!(h, Order::Equal) {
                    Some(h)
                } else {
                    partial_compare(x, y)
                }
            },
            _ => None,
        },
        Content::NewtypeVariant(n, i, v, x) => match b {
            Content::NewtypeVariant(m, j, w, y) => {
                let h = compare_heads(n, *i, v, m, *j, w);
                if !matches!(h, Order::Equal) {
                    Some(h)
                } else {
                    partial_compare(x, y)
                }
            },
            _ => None,
        },
        Content::Sequence(xs) => match b {
            Content::Sequence(ys) => compare_items(xs, ys),
            _ => None,
        },
        Content::Tuple(xs) => match b {
            Content::Tuple(ys) => compare_items(xs, ys),
            _ => None,
        },
        Content::TupleStruct(n, xs) => match b {
            Content::TupleStruct(m, ys) => {
                let h = compare_strs(n.as_str(), m.as_str());
                if !matches!(h, Order::Equal) {
                    Some(h)
                } else {
                    compare_items(xs, ys)
                }
            },
            _ => None,
        },
        Content::TupleVariant(n, i, v, xs) => match b {
            Content::TupleVariant(m, j, w, ys) => {
                let h = compare_heads(n, *i, v, m, *j, w);
                if !matches!(h, Order::Equal) {
                    Some(h)
                } else {
                    compare_items(xs, ys)
                }
            },
            _ => None,
        },
        Content::Mapping(es) => match b {
            Content::Mapping(fs) => compare_entries(es, fs),
            _ => None,
        },
        Content::Struct(n, es) => match b {
            Content::Struct(m, fs) => {
                let h = compare_strs(n.as_str(), m.as_str());
                if !matches!(h, Order::Equal) {
                    Some(h)
                } else {
                    compare_fields(es, fs)
                }
            },
            _ => None,
        },
        Content::StructVariant(n, i, v, es) => match b {
            Content::StructVariant(m, j, w, fs) => {
                let h = compare_heads(n, *i, v, m, *j, w);
                if !matches!(h, Order::Equal) {
                    Some(h)
                } else {
                    compare_fields(es, fs)
                }
            },
            _ => None,
        },
        _ => None,
    }
}

/// The lexicographic order of two sequences of values.
fn compare_items(xs: &Vec<Content>, ys: &Vec<Content>) -> (r: Option<Order>)
    ensures
        r == items_order(content_views(xs@), content_views(ys@), 0),
    decreases xs, 0nat,
{
    let ghost vx = content_views(xs@);
    let ghost vy = content_views(ys@);
    proof {
        lemma_content_views(xs@);
        lemma_content_views(ys@);
    }
    let mut i: usize = 0;
    while i < xs.len() && i < ys.len()
        invariant
            vx == content_views(xs@),
            vy == content_views(ys@),
            vx.len() == xs@.len(),
            vy.len() == ys@.len(),
            forall|k: int| 0 <= k < xs@.len() ==> #[trigger] vx[k] == xs@[k]@,
            forall|k: int| 0 <= k < ys@.len() ==> #[trigger] vy[k] == ys@[k]@,
            i <= xs@.len(),
            i <= ys@.len(),
            items_order(vx, vy, 0) == items_order(vx, vy, i as nat),
        decreases xs.len() - i,
    {
        proof {
            assert(decreases_to!(xs => xs@[i as int]));
            assert(vx[i as int] == xs@[i as int]@ && vy[i as int] == ys@[i as int]@);
        }
        let o = partial_compare(&xs[i], &ys[i]);
        match o {
            Some(Order::Equal) => {},
            _ => {
                return o;
            },
        }
        i += 1;
    }
    Some(order_u128(xs.len() as u128, ys.len() as u128))
}

/// The lexicographic order of two sequences of map entries.
fn compare_entries(es: &Vec<(Content, Content)>, fs: &Vec<(Content, Content)>) -> (r: Option<Order>)
    ensures
        r == entries_order(entry_views(es@), entry_views(fs@), 0),
    decreases es, 0nat,
{
    let ghost ve = entry_views(es@);
    let ghost vf = entry_views(fs@);
    proof {
        lemma_entry_views(es@);
        lemma_entry_views(fs@);
    }
    let mut i: usize = 0;
    while i < es.len() && i < fs.len()
        invariant
            ve == entry_views(es@),
            vf == entry_views(fs@),
            ve.len() == es@.len(),
            vf.len() == fs@.len(),
            forall|k: int| 0 <= k < es@.len() ==> #[trigger] ve[k] == (es@[k].0@, es@[k].1@),
            forall|k: int| 0 <= k < fs@.len() ==> #[trigger] vf[k] == (fs@[k].0@, fs@[k].1@),
            i <= es@.len(),
            i <= fs@.len(),
            entries_order(ve, vf, 0) == entries_order(ve, vf, i as nat),
        decreases es.len() - i,
    {
        proof {
            assert(decreases_to!(es => es@[i as int]));
            assert(decreases_to!(es@[i as int] => es@[i as int].0));
            assert(decreases_to!(es@[i as int] => es@[i as int].1));
            assert(ve[i as int] == (es@[i as int].0@, es@[i as int].1@));
            assert(vf[i as int] == (fs@[i as int].0@, fs@[i as int].1@));
        }
        let e = &es[i];
        let f = &fs[i];
        let ok = partial_compare(&e.0, &f.0);
        let o = match ok {
            Some(Order::Equal) => partial_compare(&e.1, &f.1),
            _ => ok,
        };
        assert(o == entry_pair_order(ve[i as int], vf[i as int]));
        match o {
            Some(Order::Equal) => {},
            _ => {
                return o;
            },
        }
        i += 1;
    }
    Some(order_u128(es.len() as u128, fs.len() as u128))
}

/// The lexicographic order of two sequences of struct fields.
fn compare_fields(es: &Vec<(String, Content)>, fs: &Vec<(String, Content)>) -> (r: Option<Order>)
    ensures
        r == fields_order(field_views(es@), field_views(fs@), 0),
    decreases es, 0nat,
{
    let ghost ve = field_views(es@);
    let ghost vf = field_views(fs@);
    proof {
        lemma_field_views(es@);
        lemma_field_views(fs@);
    }
    let mut i: usize = 0;
    while i < es.len() && i < fs.len()
        invariant
            ve == field_views(es@),
            vf == field_views(fs@),
            ve.len() == es@.len(),
            vf.len() == fs@.len(),
            forall|k: int| 0 <= k < es@.len() ==> #[trigger] ve[k] == (es@[k].0@, es@[k].1@),
            forall|k: int| 0 <= k < fs@.len() ==> #[trigger] vf[k] == (fs@[k].0@, fs@[k].1@),
            i <= es@.len(),
            i <= fs@.len(),
            fields_order(ve, vf, 0) == fields_order(ve, vf, i as nat),
        decreases es.len() - i,
    {
        proof {
            assert(decreases_to!(es => es@[i as int]));
            assert(decreases_to!(es@[i as int] => es@[i as int].1));
            assert(ve[i as int] == (es@[i as int].0@, es@[i as int].1@));
            assert(vf[i as int] == (fs@[i as int].0@, fs@[i as int].1@));
        }
        let e = &es[i];
        let f = &fs[i];
        let h = compare_strs(e.0.as_str(), f.0.as_str());
        let o = if !matches!(h, Order::Equal) {
            Some(h)
        } else {
            partial_compare(&e.1, &f.1)
        };
        assert(o == field_pair_order(ve[i as int], vf[i as int]));
        match o {
            Some(Order::Equal) => {},
            _ => {
                return o;
            },
        }
        i += 1;
    }
    Some(order_u128(es.len() as u128, fs.len() as u128))
}

/// Whether the map key `a` sorts strictly before the map key `b`.
pub fn key_sorts_before(a: &Content, b: &Content) -> (r: bool)
    ensures
        r == sorts_before(a@, b@),
{
    let ka = a.as_key();
    let kb = b.as_key();
    let o = if matches!(ka, Key::Other) || matches!(kb, Key::Other) {
        match partial_compare(a, b) {
            Some(o) => o,
            None => Order::Equal,
        }
    } else {
        compare_keys(&ka, &kb)
    };
    matches!(o, Order::Less)
}

// ---------------------------------------------------------------------
// Sorting
// ---------------------------------------------------------------------
/// The views of map entries tagged with the keys they are sorted by.
pub open spec fn tagged_views(s: Seq<(Content, (Content, Content))>) -> Seq<
    (ContentV, (ContentV, ContentV)),
> {
    Seq::new(s.len(), |i: int| (s[i].0@, (s[i].1.0@, s[i].1.1@)))
}

/// The tagged entries stably sorted by their tags.
fn sort_tagged(v: Vec<(Content, (Content, Content))>) -> (r: Vec<(Content, (Content, Content))>)
    ensures
        tagged_views(r@) == sort_by_key(tagged_views(v@)),
{
    let ghost src = tagged_views(v@);
    let mut input = v;
    let mut out: Vec<(Content, (Content, Content))> = Vec::new();
    let mut done: usize = 0;
    assert(src.take(0) =~= Seq::<(ContentV, (ContentV, ContentV))>::empty());
    assert(tagged_views(input@) =~= src.skip(0));
    let total = input.len();
    while input.len() > 0
        invariant
            src.len() == total,
            src.len() == done + input@.len(),
            tagged_views(out@) == sort_by_key(src.take(done as int)),
            tagged_views(input@) == src.skip(done as int),
        decreases input.len(),
    {
        let ghost before = input@;
        let x = input.remove(0);
        assert(tagged_views(input@) =~= src.skip(done as int + 1)) by {
            assert(input@ =~= before.remove(0));
            assert(tagged_views(input@) =~= tagged_views(before).skip(1));
        }
        let ghost xv = (x.0@, (x.1.0@, x.1.1@));
        assert(xv == src[done as int]) by {
            assert(tagged_views(before)[0] == xv);
        }
        let ghost o = tagged_views(out@);
        let mut j: usize = out.len();
        assert(o.take(j as int) =~= o);
        assert(o.skip(j as int) =~= Seq::<(ContentV, (ContentV, ContentV))>::empty());
        loop
            invariant
                j <= out@.len(),
                o == tagged_views(out@),
                insert_by_key(o, xv) == insert_by_key(o.take(j as int), xv) + o.skip(j as int),
                xv == (x.0@, (x.1.0@, x.1.1@)),
            ensures
                j <= out@.len(),
                insert_by_key(o, xv) == o.take(j as int).push(xv) + o.skip(j as int),
            decreases j,
        {
            if j == 0 {
                assert(o.take(0) =~= Seq::<(ContentV, (ContentV, ContentV))>::empty());
                assert(insert_by_key(o.take(0), xv) =~= seq![xv]);
                break;
            }
            let before_j = key_sorts_before(&x.0, &out[j - 1].0);
            let ghost t = o.take(j as int);
            assert(t.last() == o[j - 1]);
            assert(t.drop_last() =~= o.take(j - 1));
            if !before_j {
                break;
            }
            assert(insert_by_key(t, xv) == insert_by_key(o.take(j - 1), xv).push(o[j - 1]));
            assert(o.skip(j - 1) =~= seq![o[j - 1]] + o.skip(j as int));
            assert(insert_by_key(o.take(j - 1), xv).push(o[j - 1]) + o.skip(j as int)
                =~= insert_by_key(o.take(j - 1), xv) + o.skip(j - 1));
            j -= 1;
        }
        let ghost out_before = out@;
        out.insert(j, x);
        assert(tagged_views(out@) =~= o.take(j as int).push(xv) + o.skip(j as int)) by {
            assert(out@ =~= out_before.insert(j as int, x));
        }
        assert(src.take(done as int + 1).drop_last() =~= src.take(done as int));
        assert(src.take(done as int + 1).last() == src[done as int]);
        done += 1;
    }
    assert(src.take(done as int) =~= src);
    out
}

/// The entries with the keys they were sorted by taken off.
fn untag(v: Vec<(Content, (Content, Content))>) -> (r: Vec<(Content, Content)>)
    ensures
        entry_views(r@) == untagged(tagged_views(v@)),
{
    let ghost src = tagged_views(v@);
    let mut input = v;
    let mut out: Vec<(Content, Content)> = Vec::new();
    let mut done: usize = 0;
    assert(tagged_views(input@) =~= src.skip(0));
    let total = input.len();
    while input.len() > 0
        invariant
            src.len() == total,
            src.len() == done + input@.len(),
            entry_views(out@) == untagged(src).take(done as int),
            tagged_views(input@) == src.skip(done as int),
        decreases input.len(),
    {
        let ghost before = input@;
        let x = input.remove(0);
        assert(tagged_views(input@) =~= src.skip(done as int + 1)) by {
            assert(input@ =~= before.remove(0));
            assert(tagged_views(input@) =~= tagged_views(before).skip(1));
        }
        assert((x.1.0@, x.1.1@) == src[done as int].1) by {
            assert(tagged_views(before)[0] == src.skip(done as int)[0]);
        }
        let ghost ob = out@;
        out.push(x.1);
        assert(out@ =~= ob.push(x.1));
        assert(entry_views(out@) =~= entry_views(ob).push((x.1.0@, x.1.1@))) by {
            assert(out@.drop_last() =~= ob);
        }
        assert(untagged(src).take(done as int + 1) =~= untagged(src).take(done as int).push(
            src[done as int].1,
        ));
        done += 1;
    }
    assert(untagged(src).take(done as int) =~= untagged(src));
    out
}

impl Content {
    /// Sorts the entries of every map in this value by key, the entries of
    /// an outer map before those of the maps inside it.
    pub fn sort_maps(&mut self)
        ensures
            final(self)@ == maps_sorted(old(self)@),
    {
        let sorted = sorted_maps(self);
        *self = sorted;
    }
}

/// A copy of the value with the entries of every map in it sorted.
pub fn sorted_maps(c: &Content) -> (r: Content)
    ensures
        r@ == maps_sorted(c@),
    decreases c, 1nat,
{
    match c {
        Content::Wrapped(x) => Content::Wrapped(Box::new(sorted_maps(x))),
        Content::NewtypeStruct(n, x) => Content::NewtypeStruct(n.clone(), Box::new(sorted_maps(x))),
        Content::NewtypeVariant(n, i, v, x) => Content::NewtypeVariant(
            n.clone(),
            *i,
            v.clone(),
            Box::new(sorted_maps(x)),
        ),
        Content::Sequence(xs) => Content::Sequence(sorted_maps_items(xs)),
        Content::Tuple(xs) => Content::Tuple(sorted_maps_items(xs)),
        Content::TupleStruct(n, xs) => Content::TupleStruct(n.clone(), sorted_maps_items(xs)),
        Content::TupleVariant(n, i, v, xs) => Content::TupleVariant(
            n.clone(),
            *i,
            v.clone(),
            sorted_maps_items(xs),
        ),
        Content::Mapping(es) => Content::Mapping(untag(sort_tagged(tag_entries(es)))),
        Content::Struct(n, fs) => Content::Struct(n.clone(), sorted_maps_fields(fs)),
        Content::StructVariant(n, i, v, fs) => Content::StructVariant(
            n.clone(),
            *i,
            v.clone(),
            sorted_maps_fields(fs),
        ),
        _ => c.clone(),
    }
}

/// The items, each with its maps sorted.
fn sorted_maps_items(xs: &Vec<Content>) -> (r: Vec<Content>)
    ensures
        content_views(r@) == sorted_items(content_views(xs@), content_views(xs@).len()),
    decreases xs, 0nat,
{
    let ghost vx = content_views(xs@);
    proof {
        lemma_content_views(xs@);
    }
    let mut out: Vec<Content> = Vec::new();
    let mut i: usize = 0;
    while i < xs.len()
        invariant
            vx == content_views(xs@),
            vx.len() == xs@.len(),
            forall|k: int| 0 <= k < xs@.len() ==> #[trigger] vx[k] == xs@[k]@,
            i <= xs@.len(),
            content_views(out@) == sorted_items(vx, i as nat),
        decreases xs.len() - i,
    {
        proof {
            assert(decreases_to!(xs => xs@[i as int]));
        }
        let y = sorted_maps(&xs[i]);
        let ghost ob = out@;
        out.push(y);
        proof {
            assert(out@.drop_last() =~= ob);
            assert(vx[i as int] == xs@[i as int]@);
        }
        i += 1;
    }
    out
}

/// The entries, each tagged with its key and with the maps in its key and
/// value sorted.
fn tag_entries(es: &Vec<(Content, Content)>) -> (r: Vec<(Content, (Content, Content))>)
    ensures
        tagged_views(r@) == tagged_entries(entry_views(es@), entry_views(es@).len()),
    decreases es, 0nat,
{
    let ghost ve = entry_views(es@);
    proof {
        lemma_entry_views(es@);
    }
    let mut out: Vec<(Content, (Content, Content))> = Vec::new();
    let mut i: usize = 0;
    while i < es.len()
        invariant
            ve == entry_views(es@),
            ve.len() == es@.len(),
            forall|k: int| 0 <= k < es@.len() ==> #[trigger] ve[k] == (es@[k].0@, es@[k].1@),
            i <= es@.len(),
            tagged_views(out@) == tagged_entries(ve, i as nat),
        decreases es.len() - i,
    {
        proof {
            assert(decreases_to!(es => es@[i as int]));
            assert(decreases_to!(es@[i as int] => es@[i as int].0));
            assert(decreases_to!(es@[i as int] => es@[i as int].1));
            assert(ve[i as int] == (es@[i as int].0@, es@[i as int].1@));
        }
        let e = &es[i];
        let tag = e.0.clone();
        let k = sorted_maps(&e.0);
        let v = sorted_maps(&e.1);
        let ghost ob = out@;
        out.push((tag, (k, v)));
        proof {
            assert(tagged_views(out@) =~= tagged_views(ob).push(
                (ve[i as int].0, (maps_sorted(ve[i as int].0), maps_sorted(ve[i as int].1))),
            ));
        }
        i += 1;
    }
    out
}

/// The fields, each with the maps in its value sorted.
fn sorted_maps_fields(fs: &Vec<(String, Content)>) -> (r: Vec<(String, Content)>)
    ensures
        field_views(r@) == sorted_fields(field_views(fs@), field_views(fs@).len()),
    decreases fs, 0nat,
{
    let ghost vf = field_views(fs@);
    proof {
        lemma_field_views(fs@);
    }
    let mut out: Vec<(String, Content)> = Vec::new();
    let mut i: usize = 0;
    while i < fs.len()
        invariant
            vf == field_views(fs@),
            vf.len() == fs@.len(),
            forall|k: int| 0 <= k < fs@.len() ==> #[trigger] vf[k] == (fs@[k].0@, fs@[k].1@),
            i <= fs@.len(),
            field_views(out@) == sorted_fields(vf, i as nat),
        decreases fs.len() - i,
    {
        proof {
            assert(decreases_to!(fs => fs@[i as int]));
            assert(decreases_to!(fs@[i as int] => fs@[i as int].1));
            assert(vf[i as int] == (fs@[i as int].0@, fs@[i as int].1@));
        }
        let f = &fs[i];
        let v = sorted_maps(&f.1);
        let ghost ob = out@;
        out.push((f.0.clone(), v));
        proof {
            assert(out@.drop_last() =~= ob);
        }
        i += 1;
    }
    out
}

// ---------------------------------------------------------------------
// Sorting by the structural order
// ---------------------------------------------------------------------
/// Values that sort by an order of their views.
pub trait Sortable: View + Sized {
    /// Whether `a` sorts strictly before `b`.
    spec fn before(a: Self::V, b: Self::V) -> bool;

    /// No value sorts both before and after another.
    proof fn lemma_before_asymmetric(a: Self::V, b: Self::V)
        ensures
            Self::before(a, b) ==> !Self::before(b, a),
    ;

    /// Whether this value sorts strictly before `other`.
    fn goes_before(&self, other: &Self) -> (r: bool)
        ensures
            r == Self::before(self@, other@),
    ;
}

/// The views of a sequence.
pub open spec fn views<T: View>(s: Seq<T>) -> Seq<T::V> {
    s.map_values(|x: T| x@)
}

/// Inserts `x` into `s` behind the last element that `x` does not sort
/// before.
pub open spec fn insert_sorted<T: Sortable>(s: Seq<T::V>, x: T::V) -> Seq<T::V>
    decreases s.len(),
{
    if s.len() == 0 {
        seq![x]
    } else if T::before(x, s.last()) {
        insert_sorted::<T>(s.drop_last(), x).push(s.last())
    } else {
        s.push(x)
    }
}

/// The elements of `s`, stably sorted.
pub open spec fn sorted_seq<T: Sortable>(s: Seq<T::V>) -> Seq<T::V>
    decreases s.len(),
{
    if s.len() == 0 {
        s
    } else {
        insert_sorted::<T>(sorted_seq::<T>(s.drop_last()), s.last())
    }
}

/// Whether no element sorts before the one ahead of it.
pub open spec fn is_sorted<T: Sortable>(s: Seq<T::V>) -> bool {
    forall|i: int| 0 < i < s.len() ==> !T::before(#[trigger] s[i], s[i - 1])
}

proof fn lemma_insert_sorted<T: Sortable>(s: Seq<T::V>, x: T::V)
    ensures
        insert_sorted::<T>(s, x).to_multiset() =~= s.to_multiset().insert(x),
        insert_sorted::<T>(s, x).len() == s.len() + 1,
        insert_sorted::<T>(s, x).last() == x || (s.len() > 0 && insert_sorted::<T>(s, x).last()
            == s.last()),
        is_sorted::<T>(s) ==> is_sorted::<T>(insert_sorted::<T>(s, x)),
    decreases s.len(),
{
    broadcast use vstd::seq_lib::group_to_multiset_ensures;

    if s.len() == 0 {
        assert(seq![x] =~= Seq::<T::V>::empty().push(x));
    } else {
        let l = s.last();
        let d = s.drop_last();
        assert(s =~= d.push(l));
        if T::before(x, l) {
            lemma_insert_sorted::<T>(d, x);
            if is_sorted::<T>(s) {
                assert(is_sorted::<T>(d)) by {
                    assert forall|i: int| 0 < i < d.len() implies !T::before(#[trigger] d[i], d[i - 1]) by {
                        assert(d[i] == s[i] && d[i - 1] == s[i - 1]);
                    }
                }
                let r = insert_sorted::<T>(d, x);
                let r2 = r.push(l);
                assert forall|i: int| 0 < i < r2.len() implies !T::before(#[trigger] r2[i], r2[i - 1]) by {
                    if i == r2.len() - 1 {
                        if r.last() == x {
                            T::lemma_before_asymmetric(x, l);
                        } else {
                            assert(d.last() == s[s.len() - 2]);
                        }
                    } else {
                        assert(r2[i] == r[i] && r2[i - 1] == r[i - 1]);
                    }
                }
            }
        } else if is_sorted::<T>(s) {
            let r2 = s.push(x);
            assert forall|i: int| 0 < i < r2.len() implies !T::before(#[trigger] r2[i], r2[i - 1]) by {
                if i < s.len() {
                    assert(r2[i] == s[i] && r2[i - 1] == s[i - 1]);
                }
            }
        }
    }
}

/// Sorting keeps every element, as often as it occurs, and puts them in
/// order: none sorts before the one ahead of it.
pub proof fn lemma_sorted_seq<T: Sortable>(s: Seq<T::V>)
    ensures
        sorted_seq::<T>(s).len() == s.len(),
        sorted_seq::<T>(s).to_multiset() =~= s.to_multiset(),
        is_sorted::<T>(sorted_seq::<T>(s)),
    decreases s.len(),
{
    broadcast use vstd::seq_lib::group_to_multiset_ensures;

    if s.len() > 0 {
        let d = s.drop_last();
        lemma_sorted_seq::<T>(d);
        lemma_insert_sorted::<T>(sorted_seq::<T>(d), s.last());
        assert(s =~= d.push(s.last()));
    }
}

/// Sorts the elements stably.
pub fn insertion_sort<T: Sortable>(v: Vec<T>) -> (r: Vec<T>)
    ensures
        views(r@) == sorted_seq::<T>(views(v@)),
{
    let ghost src = views(v@);
    let mut input = v;
    let mut out: Vec<T> = Vec::new();
    let mut done: usize = 0;
    assert(src.take(0) =~= Seq::<T::V>::empty());
    assert(views(out@) =~= Seq::<T::V>::empty());
    assert(views(input@) =~= src.skip(0));
    let total = input.len();
    while input.len() > 0
        invariant
            src.len() == total,
            src.len() == done + input@.len(),
            views(out@) == sorted_seq::<T>(src.take(done as int)),
            views(input@) == src.skip(done as int),
        decreases input.len(),
    {
        let ghost before = input@;
        let x = input.remove(0);
        assert(views(input@) =~= src.skip(done as int + 1)) by {
            assert(input@ =~= before.remove(0));
            assert(views(input@) =~= views(before).skip(1));
        }
        assert(x@ == src[done as int]) by {
            assert(views(before)[0] == x@);
        }
        let ghost o = views(out@);
        let mut j: usize = out.len();
        assert(o.take(j as int) =~= o);
        assert(o.skip(j as int) =~= Seq::<T::V>::empty());
        loop
            invariant
                j <= out@.len(),
                o == views(out@),
                insert_sorted::<T>(o, x@) == insert_sorted::<T>(o.take(j as int), x@) + o.skip(
                    j as int,
                ),
            ensures
                j <= out@.len(),
                insert_sorted::<T>(o, x@) == o.take(j as int).push(x@) + o.skip(j as int),
            decreases j,
        {
            if j == 0 {
                assert(o.take(0) =~= Seq::<T::V>::empty());
                assert(insert_sorted::<T>(o.take(0), x@) =~= seq![x@]);
                break;
            }
            let goes = x.goes_before(&out[j - 1]);
            let ghost t = o.take(j as int);
            assert(t.last() == o[j - 1]);
            assert(t.drop_last() =~= o.take(j - 1));
            if !goes {
                break;
            }
            assert(insert_sorted::<T>(t, x@) == insert_sorted::<T>(o.take(j - 1), x@).push(o[j - 1]));
            assert(o.skip(j - 1) =~= seq![o[j - 1]] + o.skip(j as int));
            assert(insert_sorted::<T>(o.take(j - 1), x@).push(o[j - 1]) + o.skip(j as int)
                =~= insert_sorted::<T>(o.take(j - 1), x@) + o.skip(j - 1));
            j -= 1;
        }
        let ghost out_before = out@;
        let ghost xv = x@;
        out.insert(j, x);
        assert(views(out@) =~= o.take(j as int).push(xv) + o.skip(j as int)) by {
            assert(out@ =~= out_before.insert(j as int, out@[j as int]));
        }
        assert(src.take(done as int + 1).drop_last() =~= src.take(done as int));
        assert(src.take(done as int + 1).last() == src[done as int]);
        done += 1;
    }
    assert(src.take(done as int) =~= src);
    out
}

/// Map entries compared by key, then by value.
pub proof fn lemma_entry_pair_order_reversed(e: (ContentV, ContentV), f: (ContentV, ContentV))
    ensures
        entry_pair_order(f, e) == reversed_partial(entry_pair_order(e, f)),
{
    lemma_partial_order_reversed(e.0, f.0);
    lemma_partial_order_reversed(e.1, f.1);
}

/// Struct fields compared by name, then by value.
pub proof fn lemma_field_pair_order_reversed(e: (Seq<char>, ContentV), f: (Seq<char>, ContentV))
    ensures
        field_pair_order(f, e) == reversed_partial(field_pair_order(e, f)),
{
    lemma_chars_order_reversed(e.0, f.0, 0);
    lemma_partial_order_reversed(e.1, f.1);
}

impl Sortable for Content {
    open spec fn before(a: ContentV, b: ContentV) -> bool {
        partial_order(a, b) == Some(Order::Less)
    }

    proof fn lemma_before_asymmetric(a: ContentV, b: ContentV) {
        lemma_partial_order_reversed(a, b);
    }

    fn goes_before(&self, other: &Content) -> (r: bool) {
        matches!(partial_compare(self, other), Some(Order::Less))
    }
}

impl Sortable for (Content, Content) {
    open spec fn before(a: (ContentV, ContentV), b: (ContentV, ContentV)) -> bool {
        entry_pair_order(a, b) == Some(Order::Less)
    }

    proof fn lemma_before_asymmetric(a: (ContentV, ContentV), b: (ContentV, ContentV)) {
        lemma_entry_pair_order_reversed(a, b);
    }

    fn goes_before(&self, other: &(Content, Content)) -> (r: bool) {
        let o = match partial_compare(&self.0, &other.0) {
            Some(Order::Equal) => partial_compare(&self.1, &other.1),
            k => k,
        };
        matches!(o, Some(Order::Less))
    }
}

impl Sortable for (String, Content) {
    open spec fn before(a: (Seq<char>, ContentV), b: (Seq<char>, ContentV)) -> bool {
        field_pair_order(a, b) == Some(Order::Less)
    }

    proof fn lemma_before_asymmetric(a: (Seq<char>, ContentV), b: (Seq<char>, ContentV)) {
        lemma_field_pair_order_reversed(a, b);
    }

    fn goes_before(&self, other: &(String, Content)) -> (r: bool) {
        let h = compare_strs(self.0.as_str(), other.0.as_str());
        let o = if !matches!(h, Order::Equal) {
            Some(h)
        } else {
            partial_compare(&self.1, &other.1)
        };
        matches!(o, Some(Order::Less))
    }
}

/// The value with its innermost sequence, map or struct sorted: elements,
/// entries and fields in their structural order, those that cannot be
/// ordered counting as equal.  Wrappers around it are kept.
pub open spec fn sorted_value(v: ContentV) -> ContentV
    decreases v,
{
    match v {
        ContentV::Wrapped(x) => ContentV::Wrapped(Box::new(sorted_value(*x))),
        ContentV::NewtypeStruct(n, x) => ContentV::NewtypeStruct(n, Box::new(sorted_value(*x))),
        ContentV::NewtypeVariant(n, i, var, x) => ContentV::NewtypeVariant(
            n,
            i,
            var,
            Box::new(sorted_value(*x)),
        ),
        ContentV::Sequence(items) => ContentV::Sequence(sorted_seq::<Content>(items)),
        ContentV::Mapping(es) => ContentV::Mapping(sorted_seq::<(Content, Content)>(es)),
        ContentV::Struct(n, fs) => ContentV::Struct(n, sorted_seq::<(String, Content)>(fs)),
        ContentV::StructVariant(n, i, var, fs) => ContentV::StructVariant(
            n,
            i,
            var,
            sorted_seq::<(String, Content)>(fs),
        ),
        _ => v,
    }
}

/// Sorts the innermost sequence, map or struct of the value.
pub fn sort_value(value: Content) -> (r: Content)
    ensures
        r@ == sorted_value(value@),
    decreases value,
{
    match value {
        Content::Wrapped(x) => Content::Wrapped(Box::new(sort_value(*x))),
        Content::NewtypeStruct(n, x) => Content::NewtypeStruct(n, Box::new(sort_value(*x))),
        Content::NewtypeVariant(n, i, var, x) => Content::NewtypeVariant(
            n,
            i,
            var,
            Box::new(sort_value(*x)),
        ),
        Content::Sequence(items) => {
            proof {
                lemma_content_views(items@);
                assert(views(items@) =~= content_views(items@));
            }
            let sorted = insertion_sort(items);
            proof {
                lemma_content_views(sorted@);
                assert(views(sorted@) =~= content_views(sorted@));
            }
            Content::Sequence(sorted)
        },
        Content::Mapping(es) => {
            proof {
                lemma_entry_views(es@);
                assert(views(es@) =~= entry_views(es@));
            }
            let sorted = insertion_sort(es);
            proof {
                lemma_entry_views(sorted@);
                assert(views(sorted@) =~= entry_views(sorted@));
            }
            Content::Mapping(sorted)
        },
        Content::Struct(n, fs) => {
            proof {
                lemma_field_views(fs@);
                assert(views(fs@) =~= field_views(fs@));
            }
            let sorted = insertion_sort(fs);
            proof {
                lemma_field_views(sorted@);
                assert(views(sorted@) =~= field_views(sorted@));
            }
            Content::Struct(n, sorted)
        },
        Content::StructVariant(n, i, var, fs) => {
            proof {
                lemma_field_views(fs@);
                assert(views(fs@) =~= field_views(fs@));
            }
            let sorted = insertion_sort(fs);
            proof {
                lemma_field_views(sorted@);
                assert(views(sorted@) =~= field_views(sorted@));
            }
            Content::StructVariant(n, i, var, sorted)
        },
        other => other,
    }
}

} // verus!
