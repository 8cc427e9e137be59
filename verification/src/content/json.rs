//! JSON rendering of `Content` in four layouts: condensed, single line,
//! pretty (one element per line) and pretty-compact (pretty, but any
//! container that fits on the current line is kept on it).
use vstd::prelude::*;

use crate::content::{
    Content, ContentV, FloatV, content_view, content_views, entry_views, field_views,
    i128_of, i64_of, lemma_content_views, lemma_entry_views, lemma_field_views,
    lemma_resolve_idempotent, resolve,
};
use crate::text::{chars_of, contains_char, push_all, push_spaces, spaces, string_from};

verus! {

broadcast use vstd::std_specs::vec::group_vec_axioms;

/// The widest line, in characters, that the pretty-compact layout keeps a
/// container on.
pub const COMPACT_MAX_CHARS: usize = 120;

/// The deepest indentation the serializer accepts; deeper nesting is beyond
/// what the machine can hold in any case.
pub const MAX_INDENT: usize = 0x1000_0000;

/// The layout of the JSON output.
#[derive(PartialEq, Eq, Structural, Copy, Clone, Debug)]
pub enum Format {
    Condensed,
    SingleLine,
    Pretty,
    /// Like `Pretty`, but any container that fits on the current line
    /// within `COMPACT_MAX_CHARS` is written in `SingleLine` style.
    PrettyCompact,
}

/// Whether the layout spreads containers over indented lines.
pub open spec fn pretty_fmt(f: Format) -> bool {
    f == Format::Pretty || f == Format::PrettyCompact
}

/// Orders the layouts so that the pretty-compact layout, which renders a
/// value once more in the single-line layout, comes above the others.
pub open spec fn rank(f: Format) -> nat {
    if f == Format::PrettyCompact {
        1
    } else {
        0
    }
}

// ---------------------------------------------------------------------
// Numbers and strings
// ---------------------------------------------------------------------
/// The decimal digit `d` (below ten).
pub open spec fn digit(d: nat) -> char {
    (48 + d) as char
}

/// The decimal rendering of a natural number.
pub open spec fn dec_nat(n: nat) -> Seq<char>
    decreases n,
{
    if n < 10 {
        seq![digit(n)]
    } else {
        dec_nat(n / 10).push(digit(n % 10))
    }
}

/// The decimal rendering of an integer, with a leading `-` when negative.
pub open spec fn dec_int(i: int) -> Seq<char> {
    if i < 0 {
        seq!['-'] + dec_nat((-i) as nat)
    } else {
        dec_nat(i as nat)
    }
}

/// The lowercase hexadecimal digit `d` (below sixteen).
pub open spec fn hex_digit(d: nat) -> char {
    if d < 10 {
        (48 + d) as char
    } else {
        (87 + d) as char
    }
}

/// How one character is written inside a JSON string.
pub open spec fn escape_char(c: char) -> Seq<char> {
    if c == '\u{8}' {
        seq!['\\', 'b']
    } else if c == '\t' {
        seq!['\\', 't']
    } else if c == '\n' {
        seq!['\\', 'n']
    } else if c == '\u{c}' {
        seq!['\\', 'f']
    } else if c == '\r' {
        seq!['\\', 'r']
    } else if c == '"' {
        seq!['\\', '"']
    } else if c == '\\' {
        seq!['\\', '\\']
    } else if (c as u32) < 0x20 {
        seq!['\\', 'u', '0', '0', hex_digit((c as u32 as nat) / 16), hex_digit((c as u32 as nat) % 16)]
    } else {
        seq![c]
    }
}

/// The escaped characters of a string.
pub open spec fn escape_str(s: Seq<char>) -> Seq<char>
    decreases s.len(),
{
    if s.len() == 0 {
        seq![]
    } else {
        escape_str(s.drop_last()) + escape_char(s.last())
    }
}

/// A JSON string literal.
pub open spec fn quoted(s: Seq<char>) -> Seq<char> {
    seq!['"'] + escape_str(s) + seq!['"']
}

// ---------------------------------------------------------------------
// Reading a JSON string back
// ---------------------------------------------------------------------
/// The value of a hexadecimal digit of either case.
pub open spec fn hex_value(c: char) -> Option<nat> {
    let n = c as u32;
    if 48 <= n <= 57 {
        Some((n - 48) as nat)
    } else if 97 <= n <= 102 {
        Some((n - 87) as nat)
    } else if 65 <= n <= 70 {
        Some((n - 55) as nat)
    } else {
        None
    }
}

/// The number that four hexadecimal digits write.
pub open spec fn hex4(t: Seq<char>) -> Option<nat> {
    if t.len() != 4 {
        None
    } else {
        match (hex_value(t[0]), hex_value(t[1]), hex_value(t[2]), hex_value(t[3])) {
            (Some(a), Some(b), Some(c), Some(d)) => Some(a * 4096 + b * 256 + c * 16 + d),
            _ => None,
        }
    }
}

/// The character that a backslash and one more character stand for.
pub open spec fn short_escape(e: char) -> Option<char> {
    if e == '"' {
        Some('"')
    } else if e == '\\' {
        Some('\\')
    } else if e == '/' {
        Some('/')
    } else if e == 'b' {
        Some('\u{8}')
    } else if e == 'f' {
        Some('\u{c}')
    } else if e == 'n' {
        Some('\n')
    } else if e == 'r' {
        Some('\r')
    } else if e == 't' {
        Some('\t')
    } else {
        None
    }
}

/// The characters that the inside of a JSON string literal stands for, by
/// the escapes JSON defines (a `\u` escape of a high surrogate followed by
/// one of a low surrogate stands for one character); `None` where it is
/// not a valid inside: an unescaped quote or control character, an
/// unknown escape or a surrogate escape without its partner.
pub open spec fn json_unescape(t: Seq<char>) -> Option<Seq<char>>
    decreases t.len(),
{
    if t.len() == 0 {
        Some(seq![])
    } else if t[0] == '\\' {
        if t.len() >= 2 && short_escape(t[1]) is Some {
            match json_unescape(t.skip(2)) {
                Some(r) => Some(seq![short_escape(t[1])->0] + r),
                None => None,
            }
        } else if t.len() >= 6 && t[1] == 'u' && hex4(t.subrange(2, 6)) is Some {
            let code = hex4(t.subrange(2, 6))->0;
            if code < 0xd800 || code > 0xdfff {
                match json_unescape(t.skip(6)) {
                    Some(r) => Some(seq![(code as int) as char] + r),
                    None => None,
                }
            } else if code <= 0xdbff && t.len() >= 12 && t[6] == '\\' && t[7] == 'u' && hex4(
                t.subrange(8, 12),
            ) is Some && 0xdc00 <= hex4(t.subrange(8, 12))->0 <= 0xdfff {
                let low = hex4(t.subrange(8, 12))->0;
                let cp = 0x10000 + (code - 0xd800) * 0x400 + (low - 0xdc00);
                match json_unescape(t.skip(12)) {
                    Some(r) => Some(seq![(cp as int) as char] + r),
                    None => None,
                }
            } else {
                None
            }
        } else {
            None
        }
    } else if t[0] == '"' || (t[0] as u32) < 0x20 {
        None
    } else {
        match json_unescape(t.skip(1)) {
            Some(r) => Some(seq![t[0]] + r),
            None => None,
        }
    }
}

/// The string that a JSON string literal stands for.
pub open spec fn json_string_value(lit: Seq<char>) -> Option<Seq<char>> {
    if lit.len() >= 2 && lit[0] == '"' && lit[lit.len() - 1] == '"' {
        json_unescape(lit.subrange(1, lit.len() - 1))
    } else {
        None
    }
}

proof fn lemma_escape_str_front(s: Seq<char>)
    requires
        s.len() > 0,
    ensures
        escape_str(s) == escape_char(s[0]) + escape_str(s.drop_first()),
    decreases s.len(),
{
    if s.len() == 1 {
        assert(s.drop_first() =~= Seq::<char>::empty());
        assert(s.drop_last() =~= Seq::<char>::empty());
        assert(escape_str(s.drop_last()) == Seq::<char>::empty());
        assert(escape_str(s.drop_first()) == Seq::<char>::empty());
        assert(s.last() == s[0]);
        assert(escape_str(s) =~= escape_char(s[0]) + escape_str(s.drop_first()));
    } else {
        lemma_escape_str_front(s.drop_last());
        assert(s.drop_last().drop_first() =~= s.drop_first().drop_last());
        assert(s.drop_first().last() == s.last());
        assert(s.drop_last()[0] == s[0]);
        assert(escape_str(s) =~= escape_char(s[0]) + escape_str(s.drop_first()));
    }
}

proof fn lemma_hex_digit_value(d: nat)
    requires
        d < 16,
    ensures
        hex_value(hex_digit(d)) == Some(d),
{
    assert((((48 + d) as char) as u32) == 48 + d);
    assert((((87 + d) as char) as u32) == 87 + d);
}

proof fn lemma_unescape_char(c: char, rest: Seq<char>)
    ensures
        json_unescape(escape_char(c) + rest) == match json_unescape(rest) {
            Some(r) => Some(seq![c] + r),
            None => None,
        },
{
    let e = escape_char(c);
    let t = e + rest;
    if e.len() == 2 {
        assert(t[0] == '\\' && t[1] == e[1]);
        assert(short_escape(e[1]) == Some(c));
        assert(t.skip(2) =~= rest);
    } else if e.len() == 6 {
        let n = c as u32 as nat;
        lemma_hex_digit_value(n / 16);
        lemma_hex_digit_value(n % 16);
        assert(t.subrange(2, 6) =~= seq!['0', '0', hex_digit(n / 16), hex_digit(n % 16)]);
        assert(hex_value('0') == Some(0nat));
        assert(hex4(t.subrange(2, 6)) == Some(n));
        assert(((n as int) as char) == c);
        assert(t[0] == '\\' && t[1] == 'u');
        assert(short_escape('u') is None);
        assert(t.skip(6) =~= rest);
    } else {
        assert(e == seq![c]);
        assert(t[0] == c);
        assert(t.skip(1) =~= rest);
    }
}

/// A JSON string literal that this library writes reads back as the
/// string it was written from: decoding the escapes of `quoted(s)` gives
/// `s`.
pub proof fn lemma_quoted_reads_back(s: Seq<char>)
    ensures
        json_unescape(escape_str(s)) == Some(s),
        json_string_value(quoted(s)) == Some(s),
    decreases s.len(),
{
    if s.len() == 0 {
        assert(escape_str(s) =~= Seq::<char>::empty());
    } else {
        lemma_escape_str_front(s);
        lemma_quoted_reads_back(s.drop_first());
        lemma_unescape_char(s[0], escape_str(s.drop_first()));
        assert(seq![s[0]] + s.drop_first() =~= s);
    }
    let q = quoted(s);
    assert(q.subrange(1, q.len() - 1) =~= escape_str(s));
}

/// Whether a float with these bits is finite, for a float of
/// `exp_bits` exponent bits starting at bit `shift`.
pub open spec fn finite_bits(bits: u64, shift: u64, exp_mask: u64) -> bool {
    (bits >> shift) & exp_mask != exp_mask
}

/// A finite float is its decimal rendering, with `.0` added where the
/// rendering has no point; any other float is `null`.
pub open spec fn float_text(display: Seq<char>, finite: bool) -> Seq<char> {
    if finite {
        if display.contains('.') {
            display
        } else {
            display + seq!['.', '0']
        }
    } else {
        seq!['n', 'u', 'l', 'l']
    }
}

/// The text that stands for a map key: a string, a unit variant's name or
/// an integer.  Any other key cannot be written.
pub open spec fn key_text(k: ContentV) -> Option<Seq<char>> {
    match resolve(k) {
        ContentV::String(s) => Some(s),
        ContentV::UnitVariant(_, _, name) => Some(name),
        _ => match i64_of(k) {
            Some(n) => Some(dec_int(n as int)),
            None => match i128_of(k) {
                Some(n) => Some(dec_int(n as int)),
                None => None,
            },
        },
    }
}

// ---------------------------------------------------------------------
// Layout pieces
// ---------------------------------------------------------------------
/// The indentation of a line at depth `ind`.
pub open spec fn indent_text(f: Format, ind: nat) -> Seq<char> {
    if pretty_fmt(f) {
        spaces(2 * ind)
    } else {
        seq![]
    }
}

/// What goes before an element of a container at depth `ind`.
pub open spec fn comma_text(f: Format, ind: nat, first: bool) -> Seq<char> {
    match f {
        Format::Pretty | Format::PrettyCompact => (if first {
            seq!['\n']
        } else {
            seq![',', '\n']
        }) + indent_text(f, ind),
        Format::Condensed => if first {
            seq![]
        } else {
            seq![',']
        },
        Format::SingleLine => if first {
            seq![]
        } else {
            seq![',', ' ']
        },
    }
}

/// What goes between a key and its value.
pub open spec fn colon_text(f: Format) -> Seq<char> {
    if f == Format::Condensed {
        seq![':']
    } else {
        seq![':', ' ']
    }
}

/// What closes a container whose closing line is at depth `ind`.
pub open spec fn close_text(f: Format, ind: nat, c: char, empty: bool) -> Seq<char> {
    if pretty_fmt(f) && !empty {
        seq!['\n'] + indent_text(f, ind) + seq![c]
    } else {
        seq![c]
    }
}

/// The number of characters after the last line break.
pub open spec fn last_line_len(out: Seq<char>) -> nat
    decreases out.len(),
{
    if out.len() == 0 || out.last() == '\n' {
        0
    } else {
        last_line_len(out.drop_last()) + 1
    }
}

/// The characters that follow the element at `idx` of `len` elements on
/// its line: its comma, if another element follows.
pub open spec fn trailing(idx: int, len: int) -> nat {
    if idx + 1 < len {
        1
    } else {
        0
    }
}

/// Whether a value renders as a JSON array or object.
pub open spec fn is_container_v(v: ContentV) -> bool {
    match v {
        ContentV::Bytes(_) | ContentV::Sequence(_) | ContentV::Tuple(_) | ContentV::TupleStruct(
            _,
            _,
        ) | ContentV::TupleVariant(_, _, _, _) | ContentV::NewtypeVariant(_, _, _, _)
        | ContentV::Mapping(_) | ContentV::Struct(_, _) | ContentV::StructVariant(_, _, _, _) => true,
        _ => false,
    }
}

/// Whether `line` fits after `out` on the current line, with `reserved`
/// characters to follow it.
pub open spec fn fits(out: Seq<char>, line: Seq<char>, reserved: nat) -> bool {
    last_line_len(out) + line.len() + reserved <= COMPACT_MAX_CHARS
}

// ---------------------------------------------------------------------
// Rendering
// ---------------------------------------------------------------------
/// The output after rendering `v` at depth `ind` after `out`, with
/// `reserved` characters to follow it on its line.
pub open spec fn ser(f: Format, ind: nat, out: Seq<char>, v: ContentV, reserved: nat) -> Seq<char>
    decreases v, rank(f), 1nat,
{
    if f == Format::PrettyCompact && is_container_v(v) && fits(
        out,
        ser(Format::SingleLine, 0, seq![], v, 0),
        reserved,
    ) {
        out + ser(Format::SingleLine, 0, seq![], v, 0)
    } else {
        ser_plain(f, ind, out, v, reserved)
    }
}

/// The output after rendering `v` by its own kind, without keeping a
/// container on one line.
pub open spec fn ser_plain(
    f: Format,
    ind: nat,
    out: Seq<char>,
    v: ContentV,
    reserved: nat,
) -> Seq<char>
    decreases v, rank(f), 0nat,
{
    {
        match v {
            ContentV::Bool(b) => out + if b {
                seq!['t', 'r', 'u', 'e']
            } else {
                seq!['f', 'a', 'l', 's', 'e']
            },
            ContentV::U8(n) => out + dec_int(n as int),
            ContentV::U16(n) => out + dec_int(n as int),
            ContentV::U32(n) => out + dec_int(n as int),
            ContentV::U64(n) => out + dec_int(n as int),
            ContentV::U128(n) => out + dec_int(n as int),
            ContentV::I8(n) => out + dec_int(n as int),
            ContentV::I16(n) => out + dec_int(n as int),
            ContentV::I32(n) => out + dec_int(n as int),
            ContentV::I64(n) => out + dec_int(n as int),
            ContentV::I128(n) => out + dec_int(n as int),
            ContentV::F32(fl) => out + float_text(fl.display, finite_bits(fl.bits, 23, 0xff)),
            ContentV::F64(fl) => out + float_text(fl.display, finite_bits(fl.bits, 52, 0x7ff)),
            ContentV::Char(c) => out + quoted(seq![c]),
            ContentV::String(s) => out + quoted(s),
            ContentV::Bytes(bs) => {
                let o = bytes_items(f, ind + 1, out.push('['), bs, bs.len());
                o + close_text(f, ind, ']', bs.len() == 0)
            },
            ContentV::Nothing | ContentV::Unit | ContentV::UnitStruct(_) => out + seq![
                'n',
                'u',
                'l',
                'l',
            ],
            ContentV::Wrapped(inner) => ser(f, ind, out, *inner, reserved),
            ContentV::UnitVariant(_, _, name) => out + quoted(name),
            ContentV::NewtypeStruct(_, inner) => ser(f, ind, out, *inner, reserved),
            ContentV::NewtypeVariant(_, _, name, inner) => {
                let o = out.push('{') + comma_text(f, ind + 1, true) + quoted(name) + colon_text(f);
                ser(f, ind + 1, o, *inner, 0) + close_text(f, ind, '}', false)
            },
            ContentV::Sequence(items) => array(f, ind, out, items),
            ContentV::Tuple(items) => array(f, ind, out, items),
            ContentV::TupleStruct(_, items) => array(f, ind, out, items),
            ContentV::TupleVariant(_, _, name, items) => {
                let o = out.push('{') + comma_text(f, ind + 1, true) + quoted(name) + colon_text(f);
                array(f, ind + 1, o, items) + close_text(f, ind, '}', false)
            },
            ContentV::Mapping(es) => {
                let o = map_items(f, ind + 1, out.push('{'), es, es.len());
                o + close_text(f, ind, '}', es.len() == 0)
            },
            ContentV::Struct(_, fs) => object(f, ind, out, fs),
            ContentV::StructVariant(_, _, name, fs) => {
                let o = out.push('{') + comma_text(f, ind + 1, true) + quoted(name) + colon_text(f);
                object(f, ind + 1, o, fs) + close_text(f, ind, '}', false)
            },
        }
    }
}

/// The output after rendering the bytes `bs[..n]` as the elements of an
/// array at depth `ind`.
pub open spec fn bytes_items(f: Format, ind: nat, out: Seq<char>, bs: Seq<u8>, n: nat) -> Seq<char>
    decreases n,
{
    if n == 0 || n > bs.len() {
        out
    } else {
        bytes_items(f, ind, out, bs, (n - 1) as nat) + comma_text(f, ind, n == 1) + dec_int(
            bs[n - 1] as int,
        )
    }
}

/// The output after rendering `items` as an array opened at depth `ind`.
pub open spec fn array(f: Format, ind: nat, out: Seq<char>, items: Seq<ContentV>) -> Seq<char>
    decreases items, rank(f), items.len() + 1,
{
    array_items(f, ind + 1, out.push('['), items, items.len()) + close_text(
        f,
        ind,
        ']',
        items.len() == 0,
    )
}

/// The output after rendering `items[..n]` as the elements of an array at
/// depth `ind`.
pub open spec fn array_items(
    f: Format,
    ind: nat,
    out: Seq<char>,
    items: Seq<ContentV>,
    n: nat,
) -> Seq<char>
    decreases items, rank(f), n,
{
    if n == 0 || n > items.len() {
        out
    } else {
        let o = array_items(f, ind, out, items, (n - 1) as nat) + comma_text(f, ind, n == 1);
        ser(f, ind, o, items[n - 1], trailing(n - 1, items.len() as int))
    }
}

/// The output after rendering the entries `es[..n]` of a map at depth
/// `ind`.
pub open spec fn map_items(
    f: Format,
    ind: nat,
    out: Seq<char>,
    es: Seq<(ContentV, ContentV)>,
    n: nat,
) -> Seq<char>
    decreases es, rank(f), n,
{
    if n == 0 || n > es.len() {
        out
    } else {
        proof {
            assert(decreases_to!(es => es[n - 1]));
        }
        let o = map_items(f, ind, out, es, (n - 1) as nat) + comma_text(f, ind, n == 1) + quoted(
            key_text(es[n - 1].0).unwrap(),
        ) + colon_text(f);
        ser(f, ind, o, es[n - 1].1, trailing(n - 1, es.len() as int))
    }
}

/// The output after rendering `fs` as an object opened at depth `ind`.
pub open spec fn object(f: Format, ind: nat, out: Seq<char>, fs: Seq<(Seq<char>, ContentV)>) -> Seq<
    char,
>
    decreases fs, rank(f), fs.len() + 1,
{
    object_items(f, ind + 1, out.push('{'), fs, fs.len()) + close_text(f, ind, '}', fs.len() == 0)
}

/// The output after rendering the fields `fs[..n]` of an object at depth
/// `ind`.
pub open spec fn object_items(
    f: Format,
    ind: nat,
    out: Seq<char>,
    fs: Seq<(Seq<char>, ContentV)>,
    n: nat,
) -> Seq<char>
    decreases fs, rank(f), n,
{
    if n == 0 || n > fs.len() {
        out
    } else {
        proof {
            assert(decreases_to!(fs => fs[n - 1]));
        }
        let o = object_items(f, ind, out, fs, (n - 1) as nat) + comma_text(f, ind, n == 1) + quoted(
            fs[n - 1].0,
        ) + colon_text(f);
        ser(f, ind, o, fs[n - 1].1, trailing(n - 1, fs.len() as int))
    }
}

/// The JSON text of a value in the given layout.
pub open spec fn json(f: Format, v: ContentV) -> Seq<char> {
    ser(f, 0, seq![], v, 0)
}

// ---------------------------------------------------------------------
// What can be written
// ---------------------------------------------------------------------
/// Whether `v` can be written with at most `d` levels of containers:
/// every map key in it has a key text, and its containers nest at most
/// `d` deep.
pub open spec fn writable(v: ContentV, d: nat) -> bool
    decreases v, 0nat, 0nat,
{
    match v {
        ContentV::Wrapped(inner) => writable(*inner, d),
        ContentV::NewtypeStruct(_, inner) => writable(*inner, d),
        ContentV::NewtypeVariant(_, _, _, inner) => d >= 1 && writable(*inner, (d - 1) as nat),
        ContentV::Bytes(_) => d >= 1,
        ContentV::Sequence(items) => d >= 1 && items_writable(items, items.len(), (d - 1) as nat),
        ContentV::Tuple(items) => d >= 1 && items_writable(items, items.len(), (d - 1) as nat),
        ContentV::TupleStruct(_, items) => d >= 1 && items_writable(
            items,
            items.len(),
            (d - 1) as nat,
        ),
        ContentV::TupleVariant(_, _, _, items) => d >= 2 && items_writable(
            items,
            items.len(),
            (d - 2) as nat,
        ),
        ContentV::Mapping(es) => d >= 1 && entries_writable(es, es.len(), (d - 1) as nat),
        ContentV::Struct(_, fs) => d >= 1 && fields_writable(fs, fs.len(), (d - 1) as nat),
        ContentV::StructVariant(_, _, _, fs) => d >= 2 && fields_writable(
            fs,
            fs.len(),
            (d - 2) as nat,
        ),
        _ => true,
    }
}

/// Whether `items[..n]` can all be written within `d` levels.
pub open spec fn items_writable(items: Seq<ContentV>, n: nat, d: nat) -> bool
    decreases items, n, 0nat,
{
    if n == 0 || n > items.len() {
        true
    } else {
        items_writable(items, (n - 1) as nat, d) && writable(items[n - 1], d)
    }
}

/// Whether the entries `es[..n]` have key texts and values that can be
/// written within `d` levels.
pub open spec fn entries_writable(es: Seq<(ContentV, ContentV)>, n: nat, d: nat) -> bool
    decreases es, n, 0nat,
{
    if n == 0 || n > es.len() {
        true
    } else {
        proof {
            assert(decreases_to!(es => es[n - 1]));
        }
        entries_writable(es, (n - 1) as nat, d) && key_text(es[n - 1].0) is Some && writable(
            es[n - 1].1,
            d,
        )
    }
}

/// Whether the values of the fields `fs[..n]` can be written within `d`
/// levels.
pub open spec fn fields_writable(fs: Seq<(Seq<char>, ContentV)>, n: nat, d: nat) -> bool
    decreases fs, n, 0nat,
{
    if n == 0 || n > fs.len() {
        true
    } else {
        proof {
            assert(decreases_to!(fs => fs[n - 1]));
        }
        fields_writable(fs, (n - 1) as nat, d) && writable(fs[n - 1].1, d)
    }
}

// ---------------------------------------------------------------------
// Lemmas on what can be written
// ---------------------------------------------------------------------
/// What can be written within `d1` levels can be written within more.
pub proof fn lemma_writable_mono(v: ContentV, d1: nat, d2: nat)
    requires
        writable(v, d1),
        d1 <= d2,
    ensures
        writable(v, d2),
    decreases v, 0nat, 0nat,
{
    match v {
        ContentV::Wrapped(inner) => lemma_writable_mono(*inner, d1, d2),
        ContentV::NewtypeStruct(_, inner) => lemma_writable_mono(*inner, d1, d2),
        ContentV::NewtypeVariant(_, _, _, inner) => lemma_writable_mono(
            *inner,
            (d1 - 1) as nat,
            (d2 - 1) as nat,
        ),
        ContentV::Sequence(items) => lemma_items_mono(
            items,
            items.len(),
            (d1 - 1) as nat,
            (d2 - 1) as nat,
        ),
        ContentV::Tuple(items) => lemma_items_mono(
            items,
            items.len(),
            (d1 - 1) as nat,
            (d2 - 1) as nat,
        ),
        ContentV::TupleStruct(_, items) => lemma_items_mono(
            items,
            items.len(),
            (d1 - 1) as nat,
            (d2 - 1) as nat,
        ),
        ContentV::TupleVariant(_, _, _, items) => lemma_items_mono(
            items,
            items.len(),
            (d1 - 2) as nat,
            (d2 - 2) as nat,
        ),
        ContentV::Mapping(es) => lemma_entries_mono(es, es.len(), (d1 - 1) as nat, (d2 - 1) as nat),
        ContentV::Struct(_, fs) => lemma_fields_mono(fs, fs.len(), (d1 - 1) as nat, (d2 - 1) as nat),
        ContentV::StructVariant(_, _, _, fs) => lemma_fields_mono(
            fs,
            fs.len(),
            (d1 - 2) as nat,
            (d2 - 2) as nat,
        ),
        _ => {},
    }
}

proof fn lemma_items_mono(items: Seq<ContentV>, n: nat, d1: nat, d2: nat)
    requires
        items_writable(items, n, d1),
        d1 <= d2,
    ensures
        items_writable(items, n, d2),
    decreases items, n, 0nat,
{
    if n > 0 && n <= items.len() {
        lemma_items_mono(items, (n - 1) as nat, d1, d2);
        lemma_writable_mono(items[n - 1], d1, d2);
    }
}

proof fn lemma_entries_mono(es: Seq<(ContentV, ContentV)>, n: nat, d1: nat, d2: nat)
    requires
        entries_writable(es, n, d1),
        d1 <= d2,
    ensures
        entries_writable(es, n, d2),
    decreases es, n, 0nat,
{
    if n > 0 && n <= es.len() {
        assert(decreases_to!(es => es[n - 1]));
        lemma_entries_mono(es, (n - 1) as nat, d1, d2);
        lemma_writable_mono(es[n - 1].1, d1, d2);
    }
}

proof fn lemma_fields_mono(fs: Seq<(Seq<char>, ContentV)>, n: nat, d1: nat, d2: nat)
    requires
        fields_writable(fs, n, d1),
        d1 <= d2,
    ensures
        fields_writable(fs, n, d2),
    decreases fs, n, 0nat,
{
    if n > 0 && n <= fs.len() {
        assert(decreases_to!(fs => fs[n - 1]));
        lemma_fields_mono(fs, (n - 1) as nat, d1, d2);
        lemma_writable_mono(fs[n - 1].1, d1, d2);
    }
}

/// Each of the first `n` items can be written when all of them can.
proof fn lemma_items_writable_at(items: Seq<ContentV>, n: nat, d: nat, i: int)
    requires
        items_writable(items, n, d),
        0 <= i < n <= items.len(),
    ensures
        writable(items[i], d),
    decreases n,
{
    if i < n - 1 {
        lemma_items_writable_at(items, (n - 1) as nat, d, i);
    }
}

/// Each of the first `n` entries has a key text and a value that can be
/// written when all of them do.
proof fn lemma_entries_writable_at(es: Seq<(ContentV, ContentV)>, n: nat, d: nat, i: int)
    requires
        entries_writable(es, n, d),
        0 <= i < n <= es.len(),
    ensures
        key_text(es[i].0) is Some,
        writable(es[i].1, d),
    decreases n,
{
    if i < n - 1 {
        lemma_entries_writable_at(es, (n - 1) as nat, d, i);
    }
}

/// Each of the first `n` fields can be written when all of them can.
proof fn lemma_fields_writable_at(fs: Seq<(Seq<char>, ContentV)>, n: nat, d: nat, i: int)
    requires
        fields_writable(fs, n, d),
        0 <= i < n <= fs.len(),
    ensures
        writable(fs[i].1, d),
    decreases n,
{
    if i < n - 1 {
        lemma_fields_writable_at(fs, (n - 1) as nat, d, i);
    }
}

/// The escaped text of a prefix grows by one escaped character.
proof fn lemma_escape_step(s: Seq<char>, i: int)
    requires
        0 <= i < s.len(),
    ensures
        escape_str(s.take(i + 1)) == escape_str(s.take(i)) + escape_char(s[i]),
{
    assert(s.take(i + 1).drop_last() =~= s.take(i));
}

// ---------------------------------------------------------------------
// Digits
// ---------------------------------------------------------------------
/// Appends the decimal digits of `n`.
pub(crate) fn push_dec(out: &mut Vec<char>, n: u128)
    ensures
        final(out)@ == old(out)@ + dec_nat(n as nat),
    decreases n,
{
    if n >= 10 {
        push_dec(out, n / 10);
    }
    let d: u8 = (n % 10) as u8;
    out.push((48u8 + d) as char);
    assert(old(out)@ + dec_nat(n as nat) =~= (if n >= 10 {
        old(out)@ + dec_nat((n / 10) as nat)
    } else {
        old(out)@
    }).push(digit((n % 10) as nat)));
}

/// Appends the decimal rendering of `n`, with a leading `-` when negative.
pub(crate) fn push_int(out: &mut Vec<char>, n: i128)
    ensures
        final(out)@ == old(out)@ + dec_int(n as int),
{
    if n < 0 {
        out.push('-');
        let m: u128 = (-(n + 1)) as u128 + 1;
        push_dec(out, m);
        assert(old(out)@ + dec_int(n as int) =~= old(out)@.push('-') + dec_nat(m as nat));
    } else {
        push_dec(out, n as u128);
    }
}

/// The lowercase hexadecimal digit `d`.
fn hex_char(d: u8) -> (c: char)
    requires
        d < 16,
    ensures
        c == hex_digit(d as nat),
{
    if d < 10 {
        (48u8 + d) as char
    } else {
        (87u8 + d) as char
    }
}

// ---------------------------------------------------------------------
// The serializer
// ---------------------------------------------------------------------
/// Serializes content to JSON.
pub struct Serializer {
    out: Vec<char>,
    format: Format,
    indentation: usize,
}

impl Serializer {
    /// What has been written so far.
    pub closed spec fn written(&self) -> Seq<char> {
        self.out@
    }

    /// The layout being written.
    pub closed spec fn layout(&self) -> Format {
        self.format
    }

    /// The current depth of containers.
    pub closed spec fn depth(&self) -> nat {
        self.indentation as nat
    }

    /// Creates a new serializer that writes in the condensed layout.
    pub fn new() -> (s: Serializer)
        ensures
            s.written() == Seq::<char>::empty(),
            s.layout() == Format::Condensed,
            s.depth() == 0,
    {
        Serializer { out: Vec::new(), format: Format::Condensed, indentation: 0 }
    }

    /// Creates a new serializer that writes in the given layout.
    fn with_format(format: Format) -> (s: Serializer)
        ensures
            s.written() == Seq::<char>::empty(),
            s.layout() == format,
            s.depth() == 0,
    {
        let mut ser = Serializer::new();
        ser.format = format;
        ser
    }

    /// The text written.
    pub fn into_result(self) -> (r: String)
        ensures
            r@ == self.written(),
    {
        string_from(self.out.as_slice())
    }

    fn write_indentation(&mut self)
        requires
            old(self).depth() <= MAX_INDENT,
        ensures
            final(self).written() == old(self).written() + indent_text(
                old(self).layout(),
                old(self).depth(),
            ),
            final(self).layout() == old(self).layout(),
            final(self).depth() == old(self).depth(),
    {
        if self.is_pretty() {
            push_spaces(&mut self.out, self.indentation * 2);
        } else {
            assert(self.out@ =~= self.out@ + Seq::<char>::empty());
        }
    }

    fn start_container(&mut self, c: char)
        requires
            old(self).depth() < MAX_INDENT,
        ensures
            final(self).written() == old(self).written().push(c),
            final(self).layout() == old(self).layout(),
            final(self).depth() == old(self).depth() + 1,
    {
        self.write_char(c);
        self.indentation += 1;
    }

    fn end_container(&mut self, c: char, empty: bool)
        requires
            1 <= old(self).depth() <= MAX_INDENT,
        ensures
            final(self).written() == old(self).written() + close_text(
                old(self).layout(),
                (old(self).depth() - 1) as nat,
                c,
                empty,
            ),
            final(self).layout() == old(self).layout(),
            final(self).depth() == old(self).depth() - 1,
    {
        self.indentation -= 1;
        if self.is_pretty() && !empty {
            self.write_char('\n');
            self.write_indentation();
        }
        self.write_char(c);
        assert(self.out@ =~= old(self).out@ + close_text(
            old(self).format,
            (old(self).indentation - 1) as nat,
            c,
            empty,
        ));
    }

    fn write_comma(&mut self, first: bool)
        requires
            old(self).depth() <= MAX_INDENT,
        ensures
            final(self).written() == old(self).written() + comma_text(
                old(self).layout(),
                old(self).depth(),
                first,
            ),
            final(self).layout() == old(self).layout(),
            final(self).depth() == old(self).depth(),
    {
        match self.format {
            Format::Pretty | Format::PrettyCompact => {
                if first {
                    self.write_char('\n');
                } else {
                    self.write_char(',');
                    self.write_char('\n');
                }
                self.write_indentation();
            },
            Format::Condensed => {
                if !first {
                    self.write_char(',');
                }
            },
            Format::SingleLine => {
                if !first {
                    self.write_char(',');
                    self.write_char(' ');
                }
            },
        }
        assert(self.out@ =~= old(self).out@ + comma_text(
            old(self).format,
            old(self).indentation as nat,
            first,
        ));
    }

    fn write_colon(&mut self)
        ensures
            final(self).written() == old(self).written() + colon_text(old(self).layout()),
            final(self).layout() == old(self).layout(),
            final(self).depth() == old(self).depth(),
    {
        match self.format {
            Format::Condensed => self.write_char(':'),
            _ => {
                self.write_char(':');
                self.write_char(' ');
            },
        }
        assert(self.out@ =~= old(self).out@ + colon_text(old(self).format));
    }

    /// Writes a float from its decimal rendering: finite floats get `.0`
    /// where the rendering has no point, others are written as `null`.
    fn write_float(&mut self, display: &String, is_finite: bool)
        ensures
            final(self).written() == old(self).written() + float_text(display@, is_finite),
            final(self).layout() == old(self).layout(),
            final(self).depth() == old(self).depth(),
    {
        if is_finite {
            let text = chars_of(display.as_str());
            push_all(&mut self.out, text.as_slice());
            if !contains_char(text.as_slice(), '.') {
                self.write_char('.');
                self.write_char('0');
            }
        } else {
            self.write_char('n');
            self.write_char('u');
            self.write_char('l');
            self.write_char('l');
        }
        assert(self.out@ =~= old(self).out@ + float_text(display@, is_finite));
    }

    /// Whether the output is laid out over multiple indented lines.
    fn is_pretty(&self) -> (r: bool)
        ensures
            r == pretty_fmt(self.layout()),
    {
        match self.format {
            Format::Pretty | Format::PrettyCompact => true,
            _ => false,
        }
    }

    /// The number of characters already written to the current line.
    fn current_column(&self) -> (r: usize)
        ensures
            r == last_line_len(self.written()),
    {
        let mut i: usize = self.out.len();
        assert(self.out@.take(i as int) =~= self.out@);
        while i > 0 && self.out[i - 1] != '\n'
            invariant
                i <= self.out@.len(),
                last_line_len(self.out@) == last_line_len(self.out@.take(i as int)) + (
                self.out@.len() - i),
            decreases i,
        {
            assert(self.out@.take(i as int).drop_last() =~= self.out@.take(i - 1));
            i -= 1;
        }
        assert(self.out@.take(self.out@.len() as int) =~= self.out@);
        self.out.len() - i
    }

    fn write_str(&mut self, s: &str)
        ensures
            final(self).written() == old(self).written() + s@,
            final(self).layout() == old(self).layout(),
            final(self).depth() == old(self).depth(),
    {
        let cs = chars_of(s);
        push_all(&mut self.out, cs.as_slice());
    }

    fn write_char(&mut self, c: char)
        ensures
            final(self).written() == old(self).written().push(c),
            final(self).layout() == old(self).layout(),
            final(self).depth() == old(self).depth(),
    {
        self.out.push(c);
    }

    fn write_escaped_char(&mut self, c: char)
        ensures
            final(self).written() == old(self).written() + escape_char(c),
            final(self).layout() == old(self).layout(),
            final(self).depth() == old(self).depth(),
    {
        let n = c as u32;
        if c == '\u{8}' {
            self.write_char('\\');
            self.write_char('b');
        } else if c == '\t' {
            self.write_char('\\');
            self.write_char('t');
        } else if c == '\n' {
            self.write_char('\\');
            self.write_char('n');
        } else if c == '\u{c}' {
            self.write_char('\\');
            self.write_char('f');
        } else if c == '\r' {
            self.write_char('\\');
            self.write_char('r');
        } else if c == '"' {
            self.write_char('\\');
            self.write_char('"');
        } else if c == '\\' {
            self.write_char('\\');
            self.write_char('\\');
        } else if n < 0x20 {
            self.write_char('\\');
            self.write_char('u');
            self.write_char('0');
            self.write_char('0');
            let hi = hex_char((n / 16) as u8);
            let lo = hex_char((n % 16) as u8);
            self.write_char(hi);
            self.write_char(lo);
        } else {
            self.write_char(c);
        }
        assert(self.out@ =~= old(self).out@ + escape_char(c));
    }

    /// Writes `value` as a JSON string literal.
    fn write_escaped_chars(&mut self, value: &[char])
        ensures
            final(self).written() == old(self).written() + quoted(value@),
            final(self).layout() == old(self).layout(),
            final(self).depth() == old(self).depth(),
    {
        self.write_char('"');
        let mut i: usize = 0;
        while i < value.len()
            invariant
                i <= value@.len(),
                self.out@ == old(self).out@.push('"') + escape_str(value@.take(i as int)),
                self.format == old(self).format,
                self.indentation == old(self).indentation,
            decreases value.len() - i,
        {
            proof {
                lemma_escape_step(value@, i as int);
            }
            self.write_escaped_char(value[i]);
            assert(self.out@ =~= old(self).out@.push('"') + escape_str(value@.take(i + 1)));
            i += 1;
        }
        assert(value@.take(value@.len() as int) =~= value@);
        self.write_char('"');
        assert(self.out@ =~= old(self).out@ + quoted(value@));
    }

    fn write_escaped_str(&mut self, value: &str)
        ensures
            final(self).written() == old(self).written() + quoted(value@),
            final(self).layout() == old(self).layout(),
            final(self).depth() == old(self).depth(),
    {
        let cs = chars_of(value);
        self.write_escaped_chars(cs.as_slice());
    }

    fn write_int(&mut self, n: i128)
        ensures
            final(self).written() == old(self).written() + dec_int(n as int),
            final(self).layout() == old(self).layout(),
            final(self).depth() == old(self).depth(),
    {
        push_int(&mut self.out, n);
    }

    fn write_uint(&mut self, n: u128)
        ensures
            final(self).written() == old(self).written() + dec_int(n as int),
            final(self).layout() == old(self).layout(),
            final(self).depth() == old(self).depth(),
    {
        push_dec(&mut self.out, n);
    }

    fn write_null(&mut self)
        ensures
            final(self).written() == old(self).written() + seq!['n', 'u', 'l', 'l'],
            final(self).layout() == old(self).layout(),
            final(self).depth() == old(self).depth(),
    {
        self.write_str("null");
        proof {
            reveal_strlit("null");
        }
        assert("null"@ =~= seq!['n', 'u', 'l', 'l']);
    }

    fn write_bool(&mut self, b: bool)
        ensures
            final(self).written() == old(self).written() + if b {
                seq!['t', 'r', 'u', 'e']
            } else {
                seq!['f', 'a', 'l', 's', 'e']
            },
            final(self).layout() == old(self).layout(),
            final(self).depth() == old(self).depth(),
    {
        if b {
            self.write_str("true");
            proof {
                reveal_strlit("true");
            }
            assert("true"@ =~= seq!['t', 'r', 'u', 'e']);
        } else {
            self.write_str("false");
            proof {
                reveal_strlit("false");
            }
            assert("false"@ =~= seq!['f', 'a', 'l', 's', 'e']);
        }
    }

    /// Writes the text that stands for a map key.
    fn write_key(&mut self, key: &Content)
        requires
            key_text(key@) is Some,
        ensures
            final(self).written() == old(self).written() + quoted(key_text(key@).unwrap()),
            final(self).layout() == old(self).layout(),
            final(self).depth() == old(self).depth(),
    {
        let real_key = key.resolve_inner();
        proof {
            lemma_resolve_idempotent(key@);
        }
        match real_key {
            Content::String(s) => self.write_escaped_str(s.as_str()),
            Content::UnitVariant(_, _, name) => self.write_escaped_str(name.as_str()),
            _ => match real_key.as_i64() {
                Some(num) => {
                    let mut text: Vec<char> = Vec::new();
                    push_int(&mut text, num as i128);
                    self.write_escaped_chars(text.as_slice());
                },
                None => match real_key.as_i128() {
                    Some(num) => {
                        let mut text: Vec<char> = Vec::new();
                        push_int(&mut text, num);
                        self.write_escaped_chars(text.as_slice());
                    },
                    None => {},
                },
            },
        }
    }

    fn serialize_bytes(&mut self, bytes: &Vec<u8>)
        requires
            old(self).depth() < MAX_INDENT,
        ensures
            final(self).written() == bytes_items(
                old(self).layout(),
                old(self).depth() + 1,
                old(self).written().push('['),
                bytes@,
                bytes@.len(),
            ) + close_text(old(self).layout(), old(self).depth(), ']', bytes@.len() == 0),
            final(self).layout() == old(self).layout(),
            final(self).depth() == old(self).depth(),
    {
        self.start_container('[');
        let ghost o0 = self.out@;
        let mut idx: usize = 0;
        while idx < bytes.len()
            invariant
                idx <= bytes@.len(),
                self.format == old(self).format,
                self.indentation == old(self).indentation + 1,
                self.indentation <= MAX_INDENT,
                self.out@ == bytes_items(
                    self.format,
                    self.indentation as nat,
                    o0,
                    bytes@,
                    idx as nat,
                ),
            decreases bytes.len() - idx,
        {
            self.write_comma(idx == 0);
            self.write_uint(bytes[idx] as u128);
            idx += 1;
        }
        self.end_container(']', bytes.len() == 0);
    }

    fn serialize_array(&mut self, items: &Vec<Content>)
        requires
            old(self).depth() < MAX_INDENT,
            items_writable(
                content_views(items@),
                items@.len(),
                (MAX_INDENT - old(self).depth() - 1) as nat,
            ),
        ensures
            final(self).written() == array(
                old(self).layout(),
                old(self).depth(),
                old(self).written(),
                content_views(items@),
            ),
            final(self).layout() == old(self).layout(),
            final(self).depth() == old(self).depth(),
        decreases items, rank(old(self).layout()), 1nat,
    {
        let ghost iv = content_views(items@);
        proof {
            lemma_content_views(items@);
        }
        self.start_container('[');
        let ghost o0 = self.out@;
        let mut idx: usize = 0;
        while idx < items.len()
            invariant
                idx <= items@.len(),
                iv == content_views(items@),
                iv.len() == items@.len(),
                forall|i: int| 0 <= i < items@.len() ==> #[trigger] iv[i] == items@[i]@,
                items_writable(iv, iv.len(), (MAX_INDENT - self.indentation) as nat),
                self.format == old(self).format,
                self.indentation == old(self).indentation + 1,
                self.indentation <= MAX_INDENT,
                self.out@ == array_items(self.format, self.indentation as nat, o0, iv, idx as nat),
            decreases items.len() - idx,
        {
            self.write_comma(idx == 0);
            proof {
                lemma_items_writable_at(
                    iv,
                    iv.len(),
                    (MAX_INDENT - self.indentation) as nat,
                    idx as int,
                );
                assert(decreases_to!(items => items@[idx as int]));
            }
            self.serialize_reserved(&items[idx], trailing_comma(idx, items.len()));
            idx += 1;
        }
        self.end_container(']', items.len() == 0);
    }

    fn serialize_map(&mut self, map: &Vec<(Content, Content)>)
        requires
            old(self).depth() < MAX_INDENT,
            entries_writable(
                entry_views(map@),
                map@.len(),
                (MAX_INDENT - old(self).depth() - 1) as nat,
            ),
        ensures
            final(self).written() == map_items(
                old(self).layout(),
                old(self).depth() + 1,
                old(self).written().push('{'),
                entry_views(map@),
                map@.len(),
            ) + close_text(old(self).layout(), old(self).depth(), '}', map@.len() == 0),
            final(self).layout() == old(self).layout(),
            final(self).depth() == old(self).depth(),
        decreases map, rank(old(self).layout()), 1nat,
    {
        let ghost ev = entry_views(map@);
        proof {
            lemma_entry_views(map@);
        }
        self.start_container('{');
        let ghost o0 = self.out@;
        let mut idx: usize = 0;
        while idx < map.len()
            invariant
                idx <= map@.len(),
                ev == entry_views(map@),
                ev.len() == map@.len(),
                forall|i: int|
                    0 <= i < map@.len() ==> #[trigger] ev[i] == (map@[i].0@, map@[i].1@),
                entries_writable(ev, ev.len(), (MAX_INDENT - self.indentation) as nat),
                self.format == old(self).format,
                self.indentation == old(self).indentation + 1,
                self.indentation <= MAX_INDENT,
                self.out@ == map_items(self.format, self.indentation as nat, o0, ev, idx as nat),
            decreases map.len() - idx,
        {
            self.write_comma(idx == 0);
            proof {
                lemma_entries_writable_at(
                    ev,
                    ev.len(),
                    (MAX_INDENT - self.indentation) as nat,
                    idx as int,
                );
                assert(ev[idx as int] == (map@[idx as int].0@, map@[idx as int].1@));
            }
            let entry = &map[idx];
            self.write_key(&entry.0);
            self.write_colon();
            proof {
                assert(decreases_to!(map => map@[idx as int]));
                assert(decreases_to!(map@[idx as int] => map@[idx as int].1));
            }
            self.serialize_reserved(&entry.1, trailing_comma(idx, map.len()));
            idx += 1;
        }
        self.end_container('}', map.len() == 0);
    }

    fn serialize_object(&mut self, fields: &Vec<(String, Content)>)
        requires
            old(self).depth() < MAX_INDENT,
            fields_writable(
                field_views(fields@),
                fields@.len(),
                (MAX_INDENT - old(self).depth() - 1) as nat,
            ),
        ensures
            final(self).written() == object(
                old(self).layout(),
                old(self).depth(),
                old(self).written(),
                field_views(fields@),
            ),
            final(self).layout() == old(self).layout(),
            final(self).depth() == old(self).depth(),
        decreases fields, rank(old(self).layout()), 1nat,
    {
        let ghost fv = field_views(fields@);
        proof {
            lemma_field_views(fields@);
        }
        self.start_container('{');
        let ghost o0 = self.out@;
        let mut idx: usize = 0;
        while idx < fields.len()
            invariant
                idx <= fields@.len(),
                fv == field_views(fields@),
                fv.len() == fields@.len(),
                forall|i: int|
                    0 <= i < fields@.len() ==> #[trigger] fv[i] == (
                        fields@[i].0@,
                        fields@[i].1@,
                    ),
                fields_writable(fv, fv.len(), (MAX_INDENT - self.indentation) as nat),
                self.format == old(self).format,
                self.indentation == old(self).indentation + 1,
                self.indentation <= MAX_INDENT,
                self.out@ == object_items(
                    self.format,
                    self.indentation as nat,
                    o0,
                    fv,
                    idx as nat,
                ),
            decreases fields.len() - idx,
        {
            self.write_comma(idx == 0);
            proof {
                lemma_fields_writable_at(
                    fv,
                    fv.len(),
                    (MAX_INDENT - self.indentation) as nat,
                    idx as int,
                );
                assert(fv[idx as int] == (fields@[idx as int].0@, fields@[idx as int].1@));
            }
            let field = &fields[idx];
            self.write_escaped_str(field.0.as_str());
            self.write_colon();
            proof {
                assert(decreases_to!(fields => fields@[idx as int]));
                assert(decreases_to!(fields@[idx as int] => fields@[idx as int].1));
            }
            self.serialize_reserved(&field.1, trailing_comma(idx, fields.len()));
            idx += 1;
        }
        self.end_container('}', fields.len() == 0);
    }

    /// Serializes `value` after what has been written.
    pub fn serialize(&mut self, value: &Content)
        requires
            old(self).depth() <= MAX_INDENT,
            writable(value@, (MAX_INDENT - old(self).depth()) as nat),
        ensures
            final(self).written() == ser(
                old(self).layout(),
                old(self).depth(),
                old(self).written(),
                value@,
                0,
            ),
            final(self).layout() == old(self).layout(),
            final(self).depth() == old(self).depth(),
        decreases value, rank(old(self).layout()), 3nat,
    {
        self.serialize_reserved(value, 0);
    }

    /// Renders `value` in the single-line layout and returns it if it fits
    /// on the current line, counting the `reserved` characters that follow
    /// it.
    fn try_single_line(&self, value: &Content, reserved: usize) -> (r: Option<String>)
        requires
            self.layout() == Format::PrettyCompact,
            self.depth() <= MAX_INDENT,
            writable(value@, (MAX_INDENT - self.depth()) as nat),
        ensures
            match r {
                Some(line) => line@ == json(Format::SingleLine, value@) && fits(
                    self.written(),
                    line@,
                    reserved as nat,
                ),
                None => !fits(self.written(), json(Format::SingleLine, value@), reserved as nat),
            },
        decreases value, rank(self.layout()), 1nat,
    {
        let mut ser = Serializer::with_format(Format::SingleLine);
        proof {
            lemma_writable_mono(value@, (MAX_INDENT - self.depth()) as nat, MAX_INDENT as nat);
        }
        ser.serialize(value);
        let line = ser.into_result();
        let col = self.current_column();
        let len = line.as_str().unicode_len();
        if col <= COMPACT_MAX_CHARS && len <= COMPACT_MAX_CHARS - col && reserved
            <= COMPACT_MAX_CHARS - col - len {
            Some(line)
        } else {
            None
        }
    }

    /// Serializes `value`, where `reserved` is the number of characters
    /// that will follow it on the same line.
    fn serialize_reserved(&mut self, value: &Content, reserved: usize)
        requires
            old(self).depth() <= MAX_INDENT,
            writable(value@, (MAX_INDENT - old(self).depth()) as nat),
        ensures
            final(self).written() == ser(
                old(self).layout(),
                old(self).depth(),
                old(self).written(),
                value@,
                reserved as nat,
            ),
            final(self).layout() == old(self).layout(),
            final(self).depth() == old(self).depth(),
        decreases value, rank(old(self).layout()), 2nat,
    {
        if self.format == Format::PrettyCompact && is_container(value) {
            match self.try_single_line(value, reserved) {
                Some(line) => {
                    self.write_str(line.as_str());
                    return ;
                },
                None => {},
            }
        }
        self.serialize_plain(value, reserved);
    }

    /// Serializes `value` by its own kind.
    #[verifier::spinoff_prover]
    #[verifier::rlimit(40)]
    fn serialize_plain(&mut self, value: &Content, reserved: usize)
        requires
            old(self).depth() <= MAX_INDENT,
            writable(value@, (MAX_INDENT - old(self).depth()) as nat),
        ensures
            final(self).written() == ser_plain(
                old(self).layout(),
                old(self).depth(),
                old(self).written(),
                value@,
                reserved as nat,
            ),
            final(self).layout() == old(self).layout(),
            final(self).depth() == old(self).depth(),
        decreases value, rank(old(self).layout()), 1nat,
    {
        match value {
            Content::Sequence(items) | Content::Tuple(items) | Content::TupleStruct(_, items)
            | Content::TupleVariant(_, _, _, items) => {
                proof {
                    lemma_content_views(items@);
                }
            },
            Content::Mapping(map) => {
                proof {
                    lemma_entry_views(map@);
                }
            },
            Content::Struct(_, fields) | Content::StructVariant(_, _, _, fields) => {
                proof {
                    lemma_field_views(fields@);
                }
            },
            _ => {},
        }
        match value {
            Content::Bool(b) => self.write_bool(*b),
            Content::U8(n) => self.write_uint(*n as u128),
            Content::U16(n) => self.write_uint(*n as u128),
            Content::U32(n) => self.write_uint(*n as u128),
            Content::U64(n) => self.write_uint(*n as u128),
            Content::U128(n) => self.write_uint(*n),
            Content::I8(n) => self.write_int(*n as i128),
            Content::I16(n) => self.write_int(*n as i128),
            Content::I32(n) => self.write_int(*n as i128),
            Content::I64(n) => self.write_int(*n as i128),
            Content::I128(n) => self.write_int(*n),
            Content::F32(f) => {
                let bits = f.bits as u64;
                self.write_float(&f.display, (bits >> 23u64) & 0xffu64 != 0xffu64);
            },
            Content::F64(f) => {
                let bits = f.bits;
                self.write_float(&f.display, (bits >> 52u64) & 0x7ffu64 != 0x7ffu64);
            },
            Content::Char(c) => {
                let mut text: Vec<char> = Vec::new();
                text.push(*c);
                assert(text@ =~= seq![*c]);
                self.write_escaped_chars(text.as_slice());
            },
            Content::String(s) => self.write_escaped_str(s.as_str()),
            Content::Bytes(bytes) => self.serialize_bytes(bytes),
            Content::Nothing | Content::Unit | Content::UnitStruct(_) => self.write_null(),
            Content::Wrapped(inner) => self.serialize_reserved(inner, reserved),
            Content::UnitVariant(_, _, name) => self.write_escaped_str(name.as_str()),
            Content::NewtypeStruct(_, inner) => self.serialize_reserved(inner, reserved),
            Content::NewtypeVariant(_, _, name, inner) => {
                self.start_container('{');
                self.write_comma(true);
                self.write_escaped_str(name.as_str());
                self.write_colon();
                self.serialize(inner);
                self.end_container('}', false);
            },
            Content::Sequence(items) => self.serialize_array(items),
            Content::Tuple(items) => self.serialize_array(items),
            Content::TupleStruct(_, items) => self.serialize_array(items),
            Content::TupleVariant(_, _, name, items) => {
                self.start_container('{');
                self.write_comma(true);
                self.write_escaped_str(name.as_str());
                self.write_colon();
                self.serialize_array(items);
                self.end_container('}', false);
            },
            Content::Mapping(map) => self.serialize_map(map),
            Content::Struct(_, fields) => self.serialize_object(fields),
            Content::StructVariant(_, _, name, fields) => {
                self.start_container('{');
                self.write_comma(true);
                self.write_escaped_str(name.as_str());
                self.write_colon();
                self.serialize_object(fields);
                self.end_container('}', false);
            },
        }
    }
}

/// The number of characters a trailing comma takes up after the item at
/// `idx` in a container of `len` items.
pub fn trailing_comma(idx: usize, len: usize) -> (r: usize)
    ensures
        r == trailing(idx as int, len as int),
{
    if idx < len && idx + 1 < len {
        1
    } else {
        0
    }
}

/// Returns true if `value` serializes to a JSON array or object.  Wrapped
/// values and newtype structs are transparent and left to their inner
/// value.
pub fn is_container(value: &Content) -> (r: bool)
    ensures
        r == is_container_v(value@),
{
    match value {
        Content::Bytes(_) | Content::Sequence(_) | Content::Tuple(_) | Content::TupleStruct(_, _)
        | Content::TupleVariant(_, _, _, _) | Content::NewtypeVariant(_, _, _, _)
        | Content::Mapping(_) | Content::Struct(_, _) | Content::StructVariant(_, _, _, _) => true,
        _ => false,
    }
}

/// Serializes a value to condensed JSON.
pub fn to_string(value: &Content) -> (r: String)
    requires
        writable(value@, MAX_INDENT as nat),
    ensures
        r@ == json(Format::Condensed, value@),
{
    let mut ser = Serializer::new();
    ser.serialize(value);
    ser.into_result()
}

/// Serializes a value to JSON in the compact pretty layout: every array or
/// object that fits on the current line within `COMPACT_MAX_CHARS` is
/// written on a single line; anything larger is expanded one element per
/// line, and the same rule applies to each element.
pub fn to_string_compact(value: &Content) -> (r: String)
    requires
        writable(value@, MAX_INDENT as nat),
    ensures
        r@ == json(Format::PrettyCompact, value@),
{
    let mut ser = Serializer::with_format(Format::PrettyCompact);
    ser.serialize(value);
    ser.into_result()
}

/// Serializes a value to pretty JSON.
pub fn to_string_pretty(value: &Content) -> (r: String)
    requires
        writable(value@, MAX_INDENT as nat),
    ensures
        r@ == json(Format::Pretty, value@),
{
    let mut ser = Serializer::with_format(Format::Pretty);
    ser.serialize(value);
    ser.into_result()
}

// ---------------------------------------------------------------------
// Checking what can be written
// ---------------------------------------------------------------------
/// Whether a map key has a text it can be written as.
pub fn has_key_text(key: &Content) -> (r: bool)
    ensures
        r == key_text(key@) is Some,
{
    match key.resolve_inner() {
        Content::String(_) => true,
        Content::UnitVariant(_, _, _) => true,
        _ => key.as_i64().is_some() || key.as_i128().is_some(),
    }
}

/// Whether `value` can be written with containers nested at most `depth`
/// deep and every map key writable.
pub fn can_write(value: &Content, depth: usize) -> (r: bool)
    ensures
        r == writable(value@, depth as nat),
    decreases value, 1nat,
{
    match value {
        Content::Wrapped(x) => can_write(x, depth),
        Content::NewtypeStruct(_, x) => can_write(x, depth),
        Content::NewtypeVariant(_, _, _, x) => depth >= 1 && can_write(x, depth - 1),
        Content::Bytes(_) => depth >= 1,
        Content::Sequence(xs) => depth >= 1 && items_can_write(xs, depth - 1),
        Content::Tuple(xs) => depth >= 1 && items_can_write(xs, depth - 1),
        Content::TupleStruct(_, xs) => depth >= 1 && items_can_write(xs, depth - 1),
        Content::TupleVariant(_, _, _, xs) => depth >= 2 && items_can_write(xs, depth - 2),
        Content::Mapping(es) => depth >= 1 && entries_can_write(es, depth - 1),
        Content::Struct(_, fs) => depth >= 1 && fields_can_write(fs, depth - 1),
        Content::StructVariant(_, _, _, fs) => depth >= 2 && fields_can_write(fs, depth - 2),
        _ => true,
    }
}

fn items_can_write(xs: &Vec<Content>, depth: usize) -> (r: bool)
    ensures
        r == items_writable(content_views(xs@), content_views(xs@).len(), depth as nat),
    decreases xs, 0nat,
{
    let ghost vx = content_views(xs@);
    proof {
        lemma_content_views(xs@);
    }
    let mut ok = true;
    let mut i: usize = 0;
    while i < xs.len()
        invariant
            vx == content_views(xs@),
            vx.len() == xs@.len(),
            forall|k: int| 0 <= k < xs@.len() ==> #[trigger] vx[k] == xs@[k]@,
            i <= xs@.len(),
            ok == items_writable(vx, i as nat, depth as nat),
        decreases xs.len() - i,
    {
        proof {
            assert(decreases_to!(xs => xs@[i as int]));
            assert(vx[i as int] == xs@[i as int]@);
        }
        ok = ok && can_write(&xs[i], depth);
        i += 1;
    }
    ok
}

fn entries_can_write(es: &Vec<(Content, Content)>, depth: usize) -> (r: bool)
    ensures
        r == entries_writable(entry_views(es@), entry_views(es@).len(), depth as nat),
    decreases es, 0nat,
{
    let ghost ve = entry_views(es@);
    proof {
        lemma_entry_views(es@);
    }
    let mut ok = true;
    let mut i: usize = 0;
    while i < es.len()
        invariant
            ve == entry_views(es@),
            ve.len() == es@.len(),
            forall|k: int| 0 <= k < es@.len() ==> #[trigger] ve[k] == (es@[k].0@, es@[k].1@),
            i <= es@.len(),
            ok == entries_writable(ve, i as nat, depth as nat),
        decreases es.len() - i,
    {
        proof {
            assert(decreases_to!(es => es@[i as int]));
            assert(decreases_to!(es@[i as int] => es@[i as int].1));
            assert(ve[i as int] == (es@[i as int].0@, es@[i as int].1@));
        }
        ok = ok && has_key_text(&es[i].0) && can_write(&es[i].1, depth);
        i += 1;
    }
    ok
}

fn fields_can_write(fs: &Vec<(String, Content)>, depth: usize) -> (r: bool)
    ensures
        r == fields_writable(field_views(fs@), field_views(fs@).len(), depth as nat),
    decreases fs, 0nat,
{
    let ghost vf = field_views(fs@);
    proof {
        lemma_field_views(fs@);
    }
    let mut ok = true;
    let mut i: usize = 0;
    while i < fs.len()
        invariant
            vf == field_views(fs@),
            vf.len() == fs@.len(),
            forall|k: int| 0 <= k < fs@.len() ==> #[trigger] vf[k] == (fs@[k].0@, fs@[k].1@),
            i <= fs@.len(),
            ok == fields_writable(vf, i as nat, depth as nat),
        decreases fs.len() - i,
    {
        proof {
            assert(decreases_to!(fs => fs@[i as int]));
            assert(decreases_to!(fs@[i as int] => fs@[i as int].1));
            assert(vf[i as int] == (fs@[i as int].0@, fs@[i as int].1@));
        }
        ok = ok && can_write(&fs[i].1, depth);
        i += 1;
    }
    ok
}

/// Compact JSON writes a container that fits within `COMPACT_MAX_CHARS`
/// on one line, exactly as the single-line layout does.
pub proof fn lemma_compact_fits_on_one_line(v: ContentV)
    requires
        is_container_v(v),
        json(Format::SingleLine, v).len() <= COMPACT_MAX_CHARS,
    ensures
        json(Format::PrettyCompact, v) == json(Format::SingleLine, v),
{
    assert(last_line_len(seq![]) == 0);
    assert(seq![] + json(Format::SingleLine, v) =~= json(Format::SingleLine, v));
}

// ---------------------------------------------------------------------
// Flat layouts hold no line break
// ---------------------------------------------------------------------
/// Whether a text holds no line break.
pub open spec fn flat(s: Seq<char>) -> bool {
    forall|i: int| 0 <= i < s.len() ==> #[trigger] s[i] != '\n'
}

/// Whether every float in a value renders without a line break.
pub open spec fn floats_flat(v: ContentV) -> bool
    decreases v, 0nat, 0nat,
{
    match v {
        ContentV::F32(fl) => flat(fl.display),
        ContentV::F64(fl) => flat(fl.display),
        ContentV::Wrapped(inner) => floats_flat(*inner),
        ContentV::NewtypeStruct(_, inner) => floats_flat(*inner),
        ContentV::NewtypeVariant(_, _, _, inner) => floats_flat(*inner),
        ContentV::Sequence(items) => items_floats_flat(items, items.len()),
        ContentV::Tuple(items) => items_floats_flat(items, items.len()),
        ContentV::TupleStruct(_, items) => items_floats_flat(items, items.len()),
        ContentV::TupleVariant(_, _, _, items) => items_floats_flat(items, items.len()),
        ContentV::Mapping(es) => entries_floats_flat(es, es.len()),
        ContentV::Struct(_, fs) => fields_floats_flat(fs, fs.len()),
        ContentV::StructVariant(_, _, _, fs) => fields_floats_flat(fs, fs.len()),
        _ => true,
    }
}

/// Whether the floats of `items[..n]` render without a line break.
pub open spec fn items_floats_flat(items: Seq<ContentV>, n: nat) -> bool
    decreases items, n, 0nat,
{
    if n == 0 || n > items.len() {
        true
    } else {
        items_floats_flat(items, (n - 1) as nat) && floats_flat(items[n - 1])
    }
}

/// Whether the floats of the values of `es[..n]` render without a line
/// break.
pub open spec fn entries_floats_flat(es: Seq<(ContentV, ContentV)>, n: nat) -> bool
    decreases es, n, 0nat,
{
    if n == 0 || n > es.len() {
        true
    } else {
        proof {
            assert(decreases_to!(es => es[n - 1]));
        }
        entries_floats_flat(es, (n - 1) as nat) && floats_flat(es[n - 1].1)
    }
}

/// Whether the floats of the values of `fs[..n]` render without a line
/// break.
pub open spec fn fields_floats_flat(fs: Seq<(Seq<char>, ContentV)>, n: nat) -> bool
    decreases fs, n, 0nat,
{
    if n == 0 || n > fs.len() {
        true
    } else {
        proof {
            assert(decreases_to!(fs => fs[n - 1]));
        }
        fields_floats_flat(fs, (n - 1) as nat) && floats_flat(fs[n - 1].1)
    }
}

/// Joining texts without line breaks gives none.
proof fn lemma_flat_add(a: Seq<char>, b: Seq<char>)
    requires
        flat(a),
        flat(b),
    ensures
        flat(a + b),
{
    assert forall|i: int| 0 <= i < (a + b).len() implies #[trigger] (a + b)[i] != '\n' by {
        if i < a.len() {
            assert((a + b)[i] == a[i]);
        } else {
            assert((a + b)[i] == b[i - a.len()]);
        }
    }
}

/// Decimal digits hold no line break.
proof fn lemma_dec_flat(i: int)
    ensures
        flat(dec_int(i)),
{
    if i < 0 {
        lemma_dec_nat_flat((-i) as nat);
        lemma_flat_add(seq!['-'], dec_nat((-i) as nat));
    } else {
        lemma_dec_nat_flat(i as nat);
    }
}

proof fn lemma_dec_nat_flat(n: nat)
    ensures
        flat(dec_nat(n)),
    decreases n,
{
    if n >= 10 {
        lemma_dec_nat_flat(n / 10);
        assert((digit(n % 10) as int) == 48 + n % 10);
        lemma_flat_add(dec_nat(n / 10), seq![digit(n % 10)]);
        assert(dec_nat(n / 10).push(digit(n % 10)) =~= dec_nat(n / 10) + seq![digit(n % 10)]);
    } else {
        assert((digit(n) as int) == 48 + n);
    }
}

/// A quoted string holds no line break: a line break in it is escaped.
proof fn lemma_quoted_flat(s: Seq<char>)
    ensures
        flat(quoted(s)),
{
    lemma_escape_flat(s);
    lemma_flat_add(seq!['"'], escape_str(s));
    lemma_flat_add(seq!['"'] + escape_str(s), seq!['"']);
}

proof fn lemma_escape_flat(s: Seq<char>)
    ensures
        flat(escape_str(s)),
    decreases s.len(),
{
    if s.len() > 0 {
        lemma_escape_flat(s.drop_last());
        let c = s.last();
        if (c as u32) < 0x20 && c != '\u{8}' && c != '\t' && c != '\n' && c != '\u{c}' && c
            != '\r' {
            let x = c as u32 as nat;
            assert(x < 32);
            let hi = x / 16;
            let lo = x % 16;
            assert(hi < 10);
            assert((hex_digit(hi) as int) == 48 + hi);
            assert(lo < 16);
            assert((hex_digit(lo) as int) == 48 + lo || (hex_digit(lo) as int) == 87 + lo);
        }
        lemma_flat_add(escape_str(s.drop_last()), escape_char(c));
    }
}

/// Rendering a value in a flat layout after a text without line breaks
/// adds none.
proof fn lemma_ser_flat(f: Format, ind: nat, out: Seq<char>, v: ContentV, r: nat)
    requires
        !pretty_fmt(f),
        flat(out),
        floats_flat(v),
    ensures
        flat(ser(f, ind, out, v, r)),
    decreases v, rank(f), 1nat,
{
    lemma_ser_plain_flat(f, ind, out, v, r);
}

/// The piece that opens a variant: its name as a key.
proof fn lemma_variant_open_flat(f: Format, ind: nat, out: Seq<char>, name: Seq<char>)
    requires
        !pretty_fmt(f),
        flat(out),
    ensures
        flat(out.push('{') + comma_text(f, ind + 1, true) + quoted(name) + colon_text(f)),
{
    lemma_quoted_flat(name);
    assert(out.push('{') =~= out + seq!['{']);
    lemma_flat_add(out, seq!['{']);
    lemma_flat_add(out.push('{'), comma_text(f, ind + 1, true));
    lemma_flat_add(out.push('{') + comma_text(f, ind + 1, true), quoted(name));
    lemma_flat_add(out.push('{') + comma_text(f, ind + 1, true) + quoted(name), colon_text(f));
}

proof fn lemma_ser_plain_flat(f: Format, ind: nat, out: Seq<char>, v: ContentV, r: nat)
    requires
        !pretty_fmt(f),
        flat(out),
        floats_flat(v),
    ensures
        flat(ser_plain(f, ind, out, v, r)),
    decreases v, rank(f), 0nat,
{
    match v {
        ContentV::Bool(b) => {
            lemma_flat_add(out, if b {
                seq!['t', 'r', 'u', 'e']
            } else {
                seq!['f', 'a', 'l', 's', 'e']
            });
        },
        ContentV::U8(n) => {
            lemma_dec_flat(n as int);
            lemma_flat_add(out, dec_int(n as int));
        },
        ContentV::U16(n) => {
            lemma_dec_flat(n as int);
            lemma_flat_add(out, dec_int(n as int));
        },
        ContentV::U32(n) => {
            lemma_dec_flat(n as int);
            lemma_flat_add(out, dec_int(n as int));
        },
        ContentV::U64(n) => {
            lemma_dec_flat(n as int);
            lemma_flat_add(out, dec_int(n as int));
        },
        ContentV::U128(n) => {
            lemma_dec_flat(n as int);
            lemma_flat_add(out, dec_int(n as int));
        },
        ContentV::I8(n) => {
            lemma_dec_flat(n as int);
            lemma_flat_add(out, dec_int(n as int));
        },
        ContentV::I16(n) => {
            lemma_dec_flat(n as int);
            lemma_flat_add(out, dec_int(n as int));
        },
        ContentV::I32(n) => {
            lemma_dec_flat(n as int);
            lemma_flat_add(out, dec_int(n as int));
        },
        ContentV::I64(n) => {
            lemma_dec_flat(n as int);
            lemma_flat_add(out, dec_int(n as int));
        },
        ContentV::I128(n) => {
            lemma_dec_flat(n as int);
            lemma_flat_add(out, dec_int(n as int));
        },
        ContentV::F32(fl) => {
            lemma_flat_add(fl.display, seq!['.', '0']);
            lemma_flat_add(out, float_text(fl.display, finite_bits(fl.bits, 23, 0xff)));
        },
        ContentV::F64(fl) => {
            lemma_flat_add(fl.display, seq!['.', '0']);
            lemma_flat_add(out, float_text(fl.display, finite_bits(fl.bits, 52, 0x7ff)));
        },
        ContentV::Char(c) => {
            lemma_quoted_flat(seq![c]);
            lemma_flat_add(out, quoted(seq![c]));
        },
        ContentV::String(s) => {
            lemma_quoted_flat(s);
            lemma_flat_add(out, quoted(s));
        },
        ContentV::Bytes(bs) => {
            assert(out.push('[') =~= out + seq!['[']);
            lemma_flat_add(out, seq!['[']);
            lemma_bytes_items_flat(f, ind + 1, out.push('['), bs, bs.len());
            let o = bytes_items(f, ind + 1, out.push('['), bs, bs.len());
            lemma_flat_add(o, close_text(f, ind, ']', bs.len() == 0));
        },
        ContentV::Nothing | ContentV::Unit | ContentV::UnitStruct(_) => {
            lemma_flat_add(out, seq!['n', 'u', 'l', 'l']);
        },
        ContentV::Wrapped(inner) => {
            lemma_ser_flat(f, ind, out, *inner, r);
        },
        ContentV::UnitVariant(_, _, name) => {
            lemma_quoted_flat(name);
            lemma_flat_add(out, quoted(name));
        },
        ContentV::NewtypeStruct(_, inner) => {
            lemma_ser_flat(f, ind, out, *inner, r);
        },
        ContentV::NewtypeVariant(_, _, name, inner) => {
            lemma_variant_open_flat(f, ind, out, name);
            let o = out.push('{') + comma_text(f, ind + 1, true) + quoted(name) + colon_text(f);
            lemma_ser_flat(f, ind + 1, o, *inner, 0);
            lemma_flat_add(ser(f, ind + 1, o, *inner, 0), close_text(f, ind, '}', false));
        },
        ContentV::Sequence(items) => {
            lemma_array_flat(f, ind, out, items);
        },
        ContentV::Tuple(items) => {
            lemma_array_flat(f, ind, out, items);
        },
        ContentV::TupleStruct(_, items) => {
            lemma_array_flat(f, ind, out, items);
        },
        ContentV::TupleVariant(_, _, name, items) => {
            lemma_variant_open_flat(f, ind, out, name);
            let o = out.push('{') + comma_text(f, ind + 1, true) + quoted(name) + colon_text(f);
            lemma_array_flat(f, ind + 1, o, items);
            lemma_flat_add(array(f, ind + 1, o, items), close_text(f, ind, '}', false));
        },
        ContentV::Mapping(es) => {
            assert(out.push('{') =~= out + seq!['{']);
            lemma_flat_add(out, seq!['{']);
            lemma_map_items_flat(f, ind + 1, out.push('{'), es, es.len());
            let o = map_items(f, ind + 1, out.push('{'), es, es.len());
            lemma_flat_add(o, close_text(f, ind, '}', es.len() == 0));
        },
        ContentV::Struct(_, fs) => {
            lemma_object_flat(f, ind, out, fs);
        },
        ContentV::StructVariant(_, _, name, fs) => {
            lemma_variant_open_flat(f, ind, out, name);
            let o = out.push('{') + comma_text(f, ind + 1, true) + quoted(name) + colon_text(f);
            lemma_object_flat(f, ind + 1, o, fs);
            lemma_flat_add(object(f, ind + 1, o, fs), close_text(f, ind, '}', false));
        },
    }
}

proof fn lemma_bytes_items_flat(f: Format, ind: nat, out: Seq<char>, bs: Seq<u8>, n: nat)
    requires
        !pretty_fmt(f),
        flat(out),
    ensures
        flat(bytes_items(f, ind, out, bs, n)),
    decreases n,
{
    if n > 0 && n <= bs.len() {
        lemma_bytes_items_flat(f, ind, out, bs, (n - 1) as nat);
        let o = bytes_items(f, ind, out, bs, (n - 1) as nat);
        lemma_flat_add(o, comma_text(f, ind, n == 1));
        lemma_dec_flat(bs[n - 1] as int);
        lemma_flat_add(o + comma_text(f, ind, n == 1), dec_int(bs[n - 1] as int));
    }
}

proof fn lemma_array_flat(f: Format, ind: nat, out: Seq<char>, items: Seq<ContentV>)
    requires
        !pretty_fmt(f),
        flat(out),
        items_floats_flat(items, items.len()),
    ensures
        flat(array(f, ind, out, items)),
    decreases items, rank(f), items.len() + 1,
{
    assert(out.push('[') =~= out + seq!['[']);
    lemma_flat_add(out, seq!['[']);
    lemma_array_items_flat(f, ind + 1, out.push('['), items, items.len());
    lemma_flat_add(
        array_items(f, ind + 1, out.push('['), items, items.len()),
        close_text(f, ind, ']', items.len() == 0),
    );
}

proof fn lemma_array_items_flat(f: Format, ind: nat, out: Seq<char>, items: Seq<ContentV>, n: nat)
    requires
        !pretty_fmt(f),
        flat(out),
        items_floats_flat(items, n),
    ensures
        flat(array_items(f, ind, out, items, n)),
    decreases items, rank(f), n,
{
    if n > 0 && n <= items.len() {
        lemma_array_items_flat(f, ind, out, items, (n - 1) as nat);
        let o = array_items(f, ind, out, items, (n - 1) as nat) + comma_text(f, ind, n == 1);
        lemma_flat_add(array_items(f, ind, out, items, (n - 1) as nat), comma_text(f, ind, n == 1));
        lemma_ser_flat(f, ind, o, items[n - 1], trailing(n - 1, items.len() as int));
    }
}

proof fn lemma_map_items_flat(
    f: Format,
    ind: nat,
    out: Seq<char>,
    es: Seq<(ContentV, ContentV)>,
    n: nat,
)
    requires
        !pretty_fmt(f),
        flat(out),
        entries_floats_flat(es, n),
    ensures
        flat(map_items(f, ind, out, es, n)),
    decreases es, rank(f), n,
{
    if n > 0 && n <= es.len() {
        assert(decreases_to!(es => es[n - 1]));
        lemma_map_items_flat(f, ind, out, es, (n - 1) as nat);
        let p = map_items(f, ind, out, es, (n - 1) as nat);
        let k = quoted(key_text(es[n - 1].0).unwrap());
        lemma_quoted_flat(key_text(es[n - 1].0).unwrap());
        lemma_flat_add(p, comma_text(f, ind, n == 1));
        lemma_flat_add(p + comma_text(f, ind, n == 1), k);
        lemma_flat_add(p + comma_text(f, ind, n == 1) + k, colon_text(f));
        let o = p + comma_text(f, ind, n == 1) + k + colon_text(f);
        lemma_ser_flat(f, ind, o, es[n - 1].1, trailing(n - 1, es.len() as int));
    }
}

proof fn lemma_object_flat(f: Format, ind: nat, out: Seq<char>, fs: Seq<(Seq<char>, ContentV)>)
    requires
        !pretty_fmt(f),
        flat(out),
        fields_floats_flat(fs, fs.len()),
    ensures
        flat(object(f, ind, out, fs)),
    decreases fs, rank(f), fs.len() + 1,
{
    assert(out.push('{') =~= out + seq!['{']);
    lemma_flat_add(out, seq!['{']);
    lemma_object_items_flat(f, ind + 1, out.push('{'), fs, fs.len());
    lemma_flat_add(
        object_items(f, ind + 1, out.push('{'), fs, fs.len()),
        close_text(f, ind, '}', fs.len() == 0),
    );
}

proof fn lemma_object_items_flat(
    f: Format,
    ind: nat,
    out: Seq<char>,
    fs: Seq<(Seq<char>, ContentV)>,
    n: nat,
)
    requires
        !pretty_fmt(f),
        flat(out),
        fields_floats_flat(fs, n),
    ensures
        flat(object_items(f, ind, out, fs, n)),
    decreases fs, rank(f), n,
{
    if n > 0 && n <= fs.len() {
        assert(decreases_to!(fs => fs[n - 1]));
        lemma_object_items_flat(f, ind, out, fs, (n - 1) as nat);
        let p = object_items(f, ind, out, fs, (n - 1) as nat);
        lemma_quoted_flat(fs[n - 1].0);
        lemma_flat_add(p, comma_text(f, ind, n == 1));
        lemma_flat_add(p + comma_text(f, ind, n == 1), quoted(fs[n - 1].0));
        lemma_flat_add(p + comma_text(f, ind, n == 1) + quoted(fs[n - 1].0), colon_text(f));
        let o = p + comma_text(f, ind, n == 1) + quoted(fs[n - 1].0) + colon_text(f);
        lemma_ser_flat(f, ind, o, fs[n - 1].1, trailing(n - 1, fs.len() as int));
    }
}

/// Condensed and single-line JSON hold no line break, where no float of
/// the value renders with one: a line break inside a string is escaped.
pub proof fn lemma_flat_json_has_no_line_break(f: Format, v: ContentV)
    requires
        f == Format::Condensed || f == Format::SingleLine,
        floats_flat(v),
    ensures
        flat(json(f, v)),
{
    lemma_ser_flat(f, 0, seq![], v, 0);
}

} // verus!
