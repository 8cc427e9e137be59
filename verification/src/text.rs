//! Character-level text model shared by the snapshot, output and redaction
//! logic: whitespace, trimming, line splitting, joining and UTF-8 byte
//! offsets, each stated as a spec function with a verified implementation.
use vstd::prelude::*;
use vstd::std_specs::iter::IteratorSpec;

verus! {

broadcast use vstd::string::group_string_axioms;

pub assume_specification[ std::string::String::push ](s: &mut String, ch: char)
    ensures
        final(s)@ == old(s)@.push(ch),
;

/// Unicode `White_Space`, the property that `char::is_whitespace` tests.
pub open spec fn is_ws(c: char) -> bool {
    let n = c as u32;
    ||| (0x09 <= n && n <= 0x0d)
    ||| n == 0x20
    ||| n == 0x85
    ||| n == 0xa0
    ||| n == 0x1680
    ||| (0x2000 <= n && n <= 0x200a)
    ||| n == 0x2028
    ||| n == 0x2029
    ||| n == 0x202f
    ||| n == 0x205f
    ||| n == 0x3000
}

/// `s` without its trailing whitespace.
pub open spec fn trim_end(s: Seq<char>) -> Seq<char>
    decreases s.len(),
{
    if s.len() > 0 && is_ws(s.last()) {
        trim_end(s.drop_last())
    } else {
        s
    }
}

/// `s` without its leading whitespace.
pub open spec fn trim_start(s: Seq<char>) -> Seq<char>
    decreases s.len(),
{
    if s.len() > 0 && is_ws(s[0]) {
        trim_start(s.drop_first())
    } else {
        s
    }
}

/// `s` without leading and trailing whitespace.
pub open spec fn trim(s: Seq<char>) -> Seq<char> {
    trim_end(trim_start(s))
}

/// The number of whitespace characters `s` starts with.
pub open spec fn leading_ws(s: Seq<char>) -> nat
    decreases s.len(),
{
    if s.len() > 0 && is_ws(s[0]) {
        1 + leading_ws(s.drop_first())
    } else {
        0
    }
}

/// A line without the carriage return that ended it.
pub open spec fn strip_cr(line: Seq<char>) -> Seq<char> {
    if line.len() > 0 && line.last() == '\r' {
        line.drop_last()
    } else {
        line
    }
}

/// Splits the characters still to read, `s`, into lines, given the lines
/// already complete and the line being read.
pub open spec fn lines_acc(s: Seq<char>, done: Seq<Seq<char>>, cur: Seq<char>) -> Seq<Seq<char>>
    decreases s.len(),
{
    if s.len() == 0 {
        if cur.len() == 0 {
            done
        } else {
            done.push(cur)
        }
    } else if s[0] == '\n' {
        lines_acc(s.drop_first(), done.push(strip_cr(cur)), Seq::empty())
    } else {
        lines_acc(s.drop_first(), done, cur.push(s[0]))
    }
}

/// The lines of `s` as `str::lines` gives them: split at `\n`, a `\r`
/// before the `\n` dropped, and no empty line after a final `\n`.
pub open spec fn lines(s: Seq<char>) -> Seq<Seq<char>> {
    lines_acc(s, Seq::empty(), Seq::empty())
}

/// Joins `parts` with `sep` between each two of them.
pub open spec fn join(parts: Seq<Seq<char>>, sep: Seq<char>) -> Seq<char>
    decreases parts.len(),
{
    if parts.len() == 0 {
        Seq::empty()
    } else if parts.len() == 1 {
        parts[0]
    } else {
        join(parts.drop_last(), sep) + sep + parts.last()
    }
}

/// The views of a sequence of character vectors.
pub open spec fn deep(v: Seq<Vec<char>>) -> Seq<Seq<char>> {
    v.map_values(|l: Vec<char>| l@)
}

/// The number of bytes `c` takes in UTF-8.
pub open spec fn utf8_len(c: char) -> nat {
    let n = c as u32;
    if n < 0x80 {
        1
    } else if n < 0x800 {
        2
    } else if n < 0x10000 {
        3
    } else {
        4
    }
}

/// The number of bytes `s` takes in UTF-8.
pub open spec fn byte_len(s: Seq<char>) -> nat
    decreases s.len(),
{
    if s.len() == 0 {
        0
    } else {
        utf8_len(s[0]) + byte_len(s.drop_first())
    }
}

/// What `str::get(k..)` gives: the text after the first `k` bytes, if `k`
/// falls on a character boundary within the text.
pub open spec fn suffix_at_byte(s: Seq<char>, k: nat) -> Option<Seq<char>>
    decreases s.len(),
{
    if k == 0 {
        Some(s)
    } else if s.len() == 0 || k < utf8_len(s[0]) {
        None
    } else {
        suffix_at_byte(s.drop_first(), (k - utf8_len(s[0])) as nat)
    }
}

/// What `str::get(..k)` gives: the first `k` bytes of the text, if `k`
/// falls on a character boundary within the text.
pub open spec fn prefix_at_byte(s: Seq<char>, k: nat) -> Option<Seq<char>>
    decreases s.len(),
{
    if k == 0 {
        Some(Seq::empty())
    } else if s.len() == 0 || k < utf8_len(s[0]) {
        None
    } else {
        match prefix_at_byte(s.drop_first(), (k - utf8_len(s[0])) as nat) {
            Some(p) => Some(seq![s[0]] + p),
            None => None,
        }
    }
}

/// Returns the characters of `s` in order.
pub fn chars_of(s: &str) -> (v: Vec<char>)
    ensures
        v@ == s@,
{
    let mut v: Vec<char> = Vec::new();
    for c in it: s.chars()
        invariant
            v@ == it.seq().take(it.index() as int),
    {
        v.push(c);
    }
    assert(v@ =~= s@);
    v
}

/// Builds a string from a slice of characters.
pub fn string_from(v: &[char]) -> (s: String)
    ensures
        s@ == v@,
{
    let mut s = String::new();
    let mut i: usize = 0;
    while i < v.len()
        invariant
            i <= v.len(),
            s@ == v@.subrange(0, i as int),
        decreases v.len() - i,
    {
        s.push(v[i]);
        assert(v@.subrange(0, i as int).push(v@[i as int]) =~= v@.subrange(0, i + 1));
        i += 1;
    }
    assert(v@.subrange(0, v.len() as int) =~= v@);
    s
}

/// Appends `tail` to `out`.
pub fn push_all(out: &mut Vec<char>, tail: &[char])
    ensures
        final(out)@ == old(out)@ + tail@,
{
    let mut i: usize = 0;
    while i < tail.len()
        invariant
            i <= tail.len(),
            out@ == old(out)@ + tail@.subrange(0, i as int),
        decreases tail.len() - i,
    {
        out.push(tail[i]);
        assert(old(out)@ + tail@.subrange(0, i + 1) =~= old(out)@ + tail@.subrange(0, i as int)
            + seq![tail@[i as int]]);
        i += 1;
    }
    assert(tail@.subrange(0, tail.len() as int) =~= tail@);
}

/// Appends the characters of `tail` to `out`.
pub fn push_str(out: &mut Vec<char>, tail: &str)
    ensures
        final(out)@ == old(out)@ + tail@,
{
    let t = chars_of(tail);
    push_all(out, &t);
}

/// Whether `c` is whitespace, as `char::is_whitespace` says.
pub fn is_whitespace(c: char) -> (r: bool)
    ensures
        r == is_ws(c),
{
    let n = c as u32;
    (0x09 <= n && n <= 0x0d) || n == 0x20 || n == 0x85 || n == 0xa0 || n == 0x1680 || (0x2000
        <= n && n <= 0x200a) || n == 0x2028 || n == 0x2029 || n == 0x202f || n == 0x205f || n
        == 0x3000
}

/// Trimming the trailing whitespace of a prefix that ends in whitespace.
proof fn lemma_trim_end_step(s: Seq<char>, i: int)
    requires
        0 < i <= s.len(),
        is_ws(s[i - 1]),
    ensures
        trim_end(s.take(i)) == trim_end(s.take(i - 1)),
{
    assert(s.take(i).drop_last() =~= s.take(i - 1));
}

/// The length of `s` without its trailing whitespace.
pub fn trim_end_len(s: &[char]) -> (r: usize)
    ensures
        r <= s@.len(),
        s@.take(r as int) == trim_end(s@),
{
    let mut i = s.len();
    assert(s@.take(i as int) =~= s@);
    while i > 0 && is_whitespace(s[i - 1])
        invariant
            i <= s@.len(),
            trim_end(s@.take(i as int)) == trim_end(s@),
        decreases i,
    {
        proof {
            lemma_trim_end_step(s@, i as int);
        }
        i -= 1;
    }
    proof {
        if i > 0 {
            assert(s@.take(i as int).last() == s@[i - 1]);
        }
    }
    i
}

/// The number of whitespace characters `s` starts with.
pub fn trim_start_len(s: &[char]) -> (r: usize)
    ensures
        r <= s@.len(),
        r == leading_ws(s@),
        s@.skip(r as int) == trim_start(s@),
{
    let mut i: usize = 0;
    assert(s@.skip(0) =~= s@);
    while i < s.len() && is_whitespace(s[i])
        invariant
            i <= s@.len(),
            leading_ws(s@) == i + leading_ws(s@.skip(i as int)),
            trim_start(s@) == trim_start(s@.skip(i as int)),
        decreases s.len() - i,
    {
        assert(s@.skip(i as int).drop_first() =~= s@.skip(i + 1));
        i += 1;
    }
    proof {
        if i < s.len() {
            assert(s@.skip(i as int)[0] == s@[i as int]);
        } else {
            assert(s@.skip(i as int).len() == 0);
        }
    }
    i
}

/// Returns a copy of `s[from..to]`.
pub fn slice_copy(s: &[char], from: usize, to: usize) -> (r: Vec<char>)
    requires
        from <= to <= s@.len(),
    ensures
        r@ == s@.subrange(from as int, to as int),
{
    let mut r: Vec<char> = Vec::new();
    let mut i = from;
    while i < to
        invariant
            from <= i <= to <= s@.len(),
            r@ == s@.subrange(from as int, i as int),
        decreases to - i,
    {
        r.push(s[i]);
        assert(s@.subrange(from as int, i + 1) =~= s@.subrange(from as int, i as int).push(
            s@[i as int],
        ));
        i += 1;
    }
    r
}

/// One step of line splitting.
proof fn lemma_lines_step(s: Seq<char>, i: int, done: Seq<Seq<char>>, cur: Seq<char>)
    requires
        0 <= i < s.len(),
    ensures
        lines_acc(s.skip(i), done, cur) == (if s[i] == '\n' {
            lines_acc(s.skip(i + 1), done.push(strip_cr(cur)), Seq::empty())
        } else {
            lines_acc(s.skip(i + 1), done, cur.push(s[i]))
        }),
{
    assert(s.skip(i).drop_first() =~= s.skip(i + 1));
    assert(s.skip(i)[0] == s[i]);
}

/// Splits `s` into lines, as `str::lines` does.
pub fn split_lines(s: &[char]) -> (r: Vec<Vec<char>>)
    ensures
        deep(r@) == lines(s@),
{
    let mut done: Vec<Vec<char>> = Vec::new();
    let mut cur: Vec<char> = Vec::new();
    let mut i: usize = 0;
    assert(s@.skip(0) =~= s@);
    assert(deep(done@) =~= Seq::<Seq<char>>::empty());
    while i < s.len()
        invariant
            i <= s@.len(),
            lines(s@) == lines_acc(s@.skip(i as int), deep(done@), cur@),
        decreases s.len() - i,
    {
        proof {
            lemma_lines_step(s@, i as int, deep(done@), cur@);
        }
        if s[i] == '\n' {
            let n = cur.len();
            let line = if n > 0 && cur[n - 1] == '\r' {
                slice_copy(&cur, 0, n - 1)
            } else {
                slice_copy(&cur, 0, n)
            };
            assert(line@ == strip_cr(cur@)) by {
                assert(cur@.subrange(0, n as int) =~= cur@);
                if n > 0 {
                    assert(cur@.drop_last() =~= cur@.subrange(0, n - 1));
                }
            }
            let ghost old_done = done@;
            done.push(line);
            assert(deep(done@) =~= deep(old_done).push(line@));
            cur = Vec::new();
            assert(cur@ =~= Seq::<char>::empty());
        } else {
            cur.push(s[i]);
        }
        i += 1;
    }
    assert(s@.skip(i as int).len() == 0);
    if cur.len() > 0 {
        let ghost old_done = done@;
        let ghost c = cur@;
        done.push(cur);
        assert(deep(done@) =~= deep(old_done).push(c));
    }
    done
}

/// Joins `parts` with `sep`.
pub fn join_lines(parts: &Vec<Vec<char>>, sep: &[char]) -> (r: Vec<char>)
    ensures
        r@ == join(deep(parts@), sep@),
{
    let mut out: Vec<char> = Vec::new();
    let mut i: usize = 0;
    while i < parts.len()
        invariant
            i <= parts@.len(),
            out@ == join(deep(parts@).take(i as int), sep@),
        decreases parts.len() - i,
    {
        let ghost before = deep(parts@).take(i as int);
        assert(deep(parts@).take(i + 1).drop_last() =~= before);
        if i > 0 {
            push_all(&mut out, sep);
        } else {
            assert(deep(parts@).take(1) =~= seq![parts@[0]@]);
        }
        push_all(&mut out, &parts[i]);
        i += 1;
    }
    assert(deep(parts@).take(parts.len() as int) =~= deep(parts@));
    out
}

/// The number of bytes `c` takes in UTF-8.
pub fn char_utf8_len(c: char) -> (r: usize)
    ensures
        r == utf8_len(c),
        1 <= r <= 4,
{
    let n = c as u32;
    if n < 0x80 {
        1
    } else if n < 0x800 {
        2
    } else if n < 0x10000 {
        3
    } else {
        4
    }
}

/// One step of cutting at a byte offset.
proof fn lemma_byte_cut_step(s: Seq<char>, i: int, k: nat)
    requires
        0 <= i < s.len(),
        k >= utf8_len(s[i]),
        k > 0,
    ensures
        suffix_at_byte(s.skip(i), k) == suffix_at_byte(s.skip(i + 1), (k - utf8_len(s[i])) as nat),
{
    assert(s.skip(i).drop_first() =~= s.skip(i + 1));
    assert(s.skip(i)[0] == s[i]);
}

/// What `str::get(k..)` gives for the text `s`.
pub fn get_suffix_at_byte(s: &[char], k: u128) -> (r: Option<Vec<char>>)
    ensures
        match r {
            Some(v) => suffix_at_byte(s@, k as nat) == Some(v@),
            None => suffix_at_byte(s@, k as nat) is None,
        },
{
    let mut i: usize = 0;
    let mut left: u128 = k;
    assert(s@.skip(0) =~= s@);
    while left > 0 && i < s.len() && (char_utf8_len(s[i]) as u128) <= left
        invariant
            i <= s@.len(),
            left <= k,
            suffix_at_byte(s@, k as nat) == suffix_at_byte(s@.skip(i as int), left as nat),
        decreases s.len() - i,
    {
        proof {
            lemma_byte_cut_step(s@, i as int, left as nat);
        }
        left -= char_utf8_len(s[i]) as u128;
        i += 1;
    }
    if left == 0 {
        let v = slice_copy(s, i, s.len());
        assert(v@ =~= s@.skip(i as int));
        Some(v)
    } else {
        proof {
            if i < s.len() {
                assert(s@.skip(i as int)[0] == s@[i as int]);
            }
        }
        None
    }
}

/// The prefix cut shifts along with a step.
proof fn lemma_prefix_cut(s: Seq<char>, i: int, k: nat)
    requires
        0 <= i <= s.len(),
        prefix_at_byte(s.skip(i), k) is Some,
    ensures
        prefix_at_byte(s, (byte_len(s.take(i)) + k) as nat) == Some(s.take(i) + prefix_at_byte(
            s.skip(i),
            k,
        )->0),
    decreases i,
{
    if i == 0 {
        assert(s.take(0) =~= Seq::<char>::empty());
        assert(s.skip(0) =~= s);
        assert(Seq::<char>::empty() + prefix_at_byte(s, k)->0 =~= prefix_at_byte(s, k)->0);
    } else {
        let t = s.drop_first();
        assert(t.skip(i - 1) =~= s.skip(i));
        lemma_prefix_cut(t, i - 1, k);
        assert(s.take(i).drop_first() =~= t.take(i - 1));
        assert(s.take(i)[0] == s[0]);
        let bl = byte_len(t.take(i - 1));
        assert(byte_len(s.take(i)) == utf8_len(s[0]) + bl);
        let kk = (byte_len(s.take(i)) + k) as nat;
        assert(kk > 0);
        assert((kk - utf8_len(s[0])) as nat == (bl + k) as nat);
        assert(seq![s[0]] + (t.take(i - 1) + prefix_at_byte(s.skip(i), k)->0) =~= s.take(i)
            + prefix_at_byte(s.skip(i), k)->0);
    }
}

} // verus!

verus! {

/// Prepends `a` to an optional text.
pub open spec fn opt_prepend(a: Seq<char>, o: Option<Seq<char>>) -> Option<Seq<char>> {
    match o {
        Some(p) => Some(a + p),
        None => None,
    }
}

/// What `str::get(..k)` gives for the text `s`.
pub fn get_prefix_at_byte(s: &[char], k: u128) -> (r: Option<Vec<char>>)
    ensures
        match r {
            Some(v) => prefix_at_byte(s@, k as nat) == Some(v@),
            None => prefix_at_byte(s@, k as nat) is None,
        },
{
    let mut i: usize = 0;
    let mut left: u128 = k;
    assert(s@.skip(0) =~= s@);
    assert(s@.take(0) + prefix_at_byte(s@, k as nat)->0 =~= prefix_at_byte(s@, k as nat)->0);
    while left > 0 && i < s.len() && (char_utf8_len(s[i]) as u128) <= left
        invariant
            i <= s@.len(),
            left <= k,
            prefix_at_byte(s@, k as nat) == opt_prepend(
                s@.take(i as int),
                prefix_at_byte(s@.skip(i as int), left as nat),
            ),
        decreases s.len() - i,
    {
        let ghost t = s@.skip(i as int);
        let ghost l2 = (left - utf8_len(s@[i as int])) as nat;
        assert(t.drop_first() =~= s@.skip(i + 1));
        assert(t[0] == s@[i as int]);
        assert(prefix_at_byte(t, left as nat) == opt_prepend(
            seq![s@[i as int]],
            prefix_at_byte(s@.skip(i + 1), l2),
        ));
        proof {
            match prefix_at_byte(s@.skip(i + 1), l2) {
                Some(p) => {
                    assert(s@.take(i as int) + (seq![s@[i as int]] + p) =~= s@.take(i + 1) + p);
                },
                None => {},
            }
        }
        left -= char_utf8_len(s[i]) as u128;
        i += 1;
    }
    if left == 0 {
        let v = slice_copy(s, 0, i);
        assert(s@.take(i as int) + Seq::<char>::empty() =~= v@);
        Some(v)
    } else {
        proof {
            if i < s.len() {
                assert(s@.skip(i as int)[0] == s@[i as int]);
            }
        }
        None
    }
}

/// Whether the characters `s` hold `c`.
pub fn contains_char(s: &[char], c: char) -> (r: bool)
    ensures
        r == s@.contains(c),
{
    let mut i: usize = 0;
    while i < s.len()
        invariant
            i <= s@.len(),
            forall|j: int| 0 <= j < i ==> s@[j] != c,
        decreases s.len() - i,
    {
        if s[i] == c {
            assert(s@[i as int] == c);
            return true;
        }
        i += 1;
    }
    false
}

/// `n` spaces.
pub open spec fn spaces(n: nat) -> Seq<char> {
    Seq::new(n, |i: int| ' ')
}

/// Appends `n` spaces to `out`.
pub fn push_spaces(out: &mut Vec<char>, n: usize)
    ensures
        final(out)@ == old(out)@ + spaces(n as nat),
{
    let mut i: usize = 0;
    while i < n
        invariant
            i <= n,
            out@ == old(out)@ + spaces(i as nat),
        decreases n - i,
    {
        out.push(' ');
        assert(old(out)@ + spaces((i + 1) as nat) =~= old(out)@ + spaces(i as nat) + seq![' ']);
        i += 1;
    }
}

/// `s` with every `\r\n` turned into `\n`.
pub open spec fn crlf_to_lf(s: Seq<char>) -> Seq<char>
    decreases s.len(),
{
    if s.len() == 0 {
        s
    } else if s.len() >= 2 && s[0] == '\r' && s[1] == '\n' {
        seq!['\n'] + crlf_to_lf(s.skip(2))
    } else {
        seq![s[0]] + crlf_to_lf(s.drop_first())
    }
}

/// Replaces every `\r\n` in `s` with `\n`.
pub fn normalize_newlines(s: &[char]) -> (r: Vec<char>)
    ensures
        r@ == crlf_to_lf(s@),
{
    let mut out: Vec<char> = Vec::new();
    let mut i: usize = 0;
    assert(s@.skip(0) =~= s@);
    while i < s.len()
        invariant
            i <= s@.len(),
            out@ + crlf_to_lf(s@.skip(i as int)) == crlf_to_lf(s@),
        decreases s.len() - i,
    {
        let ghost t = s@.skip(i as int);
        if i + 1 < s.len() && s[i] == '\r' && s[i + 1] == '\n' {
            assert(t.skip(2) =~= s@.skip(i + 2));
            assert(out@.push('\n') + crlf_to_lf(s@.skip(i + 2)) =~= out@ + crlf_to_lf(t));
            out.push('\n');
            i += 2;
        } else {
            assert(t.drop_first() =~= s@.skip(i + 1));
            assert(out@.push(s@[i as int]) + crlf_to_lf(s@.skip(i + 1)) =~= out@ + crlf_to_lf(t));
            out.push(s[i]);
            i += 1;
        }
    }
    assert(out@ + crlf_to_lf(s@.skip(i as int)) =~= out@);
    out
}

} // verus!

verus! {

/// Byte lengths add up over concatenation.
pub proof fn lemma_byte_len_concat(a: Seq<char>, b: Seq<char>)
    ensures
        byte_len(a + b) == byte_len(a) + byte_len(b),
    decreases a.len(),
{
    if a.len() == 0 {
        assert(a + b =~= b);
    } else {
        assert((a + b).drop_first() =~= a.drop_first() + b);
        lemma_byte_len_concat(a.drop_first(), b);
    }
}

/// The number of bytes the first `k` characters of `s` take in UTF-8.
pub fn byte_len_of_prefix(s: &[char], k: usize) -> (r: u128)
    requires
        k <= s@.len(),
    ensures
        r == byte_len(s@.take(k as int)),
{
    let mut r: u128 = 0;
    let mut i: usize = 0;
    assert(s@.take(0) =~= Seq::<char>::empty());
    while i < k
        invariant
            i <= k <= s@.len(),
            r == byte_len(s@.take(i as int)),
            r <= 4 * i,
        decreases k - i,
    {
        proof {
            assert(s@.take(i + 1) =~= s@.take(i as int) + seq![s@[i as int]]);
            lemma_byte_len_concat(s@.take(i as int), seq![s@[i as int]]);
            assert(seq![s@[i as int]].drop_first() =~= Seq::<char>::empty());
            assert(byte_len(Seq::<char>::empty()) == 0);
            assert(byte_len(seq![s@[i as int]]) == utf8_len(s@[i as int]));
        }
        r = r + char_utf8_len(s[i]) as u128;
        i += 1;
    }
    r
}


/// Whether no `\r` stands right before a `\n` in the text.
pub open spec fn crlf_free(t: Seq<char>) -> bool {
    forall|k: int| 0 < k < t.len() && #[trigger] t[k] == '\n' ==> t[k - 1] != '\r'
}

/// The pieces of `cur` followed by `s`, split at every `\n` (an empty
/// piece after a final `\n` included), after the pieces `done`.
pub open spec fn pieces_acc(s: Seq<char>, done: Seq<Seq<char>>, cur: Seq<char>) -> Seq<Seq<char>>
    decreases s.len(),
{
    if s.len() == 0 {
        done.push(cur)
    } else if s[0] == '\n' {
        pieces_acc(s.drop_first(), done.push(cur), Seq::empty())
    } else {
        pieces_acc(s.drop_first(), done, cur.push(s[0]))
    }
}

pub proof fn lemma_lines_of_terminated(s: Seq<char>, done: Seq<Seq<char>>, cur: Seq<char>)
    requires
        crlf_free(cur + s + seq!['\n']),
    ensures
        lines_acc(s + seq!['\n'], done, cur) == pieces_acc(s, done, cur),
    decreases s.len(),
{
    let t = cur + s + seq!['\n'];
    if s.len() == 0 {
        assert(s + seq!['\n'] =~= seq!['\n']);
        assert(seq!['\n'].drop_first() =~= Seq::<char>::empty());
        if cur.len() > 0 {
            assert(t[cur.len() as int] == '\n');
            assert(t[cur.len() - 1] == cur.last());
        }
        assert(strip_cr(cur) == cur);
        assert(lines_acc(seq!['\n'], done, cur) == lines_acc(
            Seq::empty(),
            done.push(strip_cr(cur)),
            Seq::empty(),
        ));
    } else {
        assert((s + seq!['\n']).drop_first() =~= s.drop_first() + seq!['\n']);
        assert((s + seq!['\n'])[0] == s[0]);
        if s[0] == '\n' {
            if cur.len() > 0 {
                assert(t[cur.len() as int] == '\n');
                assert(t[cur.len() - 1] == cur.last());
            }
            assert(strip_cr(cur) == cur);
            let t2 = Seq::<char>::empty() + s.drop_first() + seq!['\n'];
            assert forall|k: int| 0 < k < t2.len() && #[trigger] t2[k] == '\n' implies t2[k - 1]
                != '\r' by {
                assert(t2[k] == t[cur.len() + 1 + k]);
                assert(t2[k - 1] == t[cur.len() + k]);
            }
            lemma_lines_of_terminated(s.drop_first(), done.push(cur), Seq::empty());
            assert(lines_acc(s + seq!['\n'], done, cur) == lines_acc(
                s.drop_first() + seq!['\n'],
                done.push(cur),
                Seq::empty(),
            ));
        } else {
            assert(cur.push(s[0]) + s.drop_first() + seq!['\n'] =~= t);
            lemma_lines_of_terminated(s.drop_first(), done, cur.push(s[0]));
            assert(lines_acc(s + seq!['\n'], done, cur) == lines_acc(
                s.drop_first() + seq!['\n'],
                done,
                cur.push(s[0]),
            ));
        }
    }
}

pub proof fn lemma_join_pieces(s: Seq<char>, done: Seq<Seq<char>>, cur: Seq<char>)
    ensures
        join(pieces_acc(s, done, cur), seq!['\n']) == if done.len() == 0 {
            cur + s
        } else {
            join(done, seq!['\n']) + seq!['\n'] + cur + s
        },
    decreases s.len(),
{
    if s.len() == 0 {
        assert(done.push(cur).drop_last() =~= done);
        assert(cur + s =~= cur);
        if done.len() == 0 {
            assert(done.push(cur).len() == 1);
        }
    } else if s[0] == '\n' {
        lemma_join_pieces(s.drop_first(), done.push(cur), Seq::empty());
        assert(done.push(cur).drop_last() =~= done);
        assert(s =~= seq!['\n'] + s.drop_first());
        if done.len() == 0 {
            assert(join(done.push(cur), seq!['\n']) == cur);
            assert(cur + seq!['\n'] + Seq::<char>::empty() + s.drop_first() =~= cur + s);
        } else {
            assert(join(done.push(cur), seq!['\n']) == join(done, seq!['\n']) + seq!['\n'] + cur);
            assert(join(done, seq!['\n']) + seq!['\n'] + cur + seq!['\n'] + Seq::<char>::empty()
                + s.drop_first() =~= join(done, seq!['\n']) + seq!['\n'] + cur + s);
        }
    } else {
        lemma_join_pieces(s.drop_first(), done, cur.push(s[0]));
        assert(cur.push(s[0]) + s.drop_first() =~= cur + s);
        assert(join(done, seq!['\n']) + seq!['\n'] + cur.push(s[0]) + s.drop_first() =~= join(
            done,
            seq!['\n'],
        ) + seq!['\n'] + cur + s);
    }
}

/// Contents written with a final line break and no `\r` before any line
/// break read back as they were.
pub proof fn lemma_terminated_lines_join(c: Seq<char>)
    requires
        crlf_free(c + seq!['\n']),
    ensures
        join(lines(c + seq!['\n']), seq!['\n']) == c,
{
    assert(Seq::<char>::empty() + c + seq!['\n'] =~= c + seq!['\n']);
    lemma_lines_of_terminated(c, Seq::empty(), Seq::empty());
    lemma_join_pieces(c, Seq::empty(), Seq::empty());
    assert(Seq::<char>::empty() + c =~= c);
}


// ---------------------------------------------------------------------
// Pieces of a text between line breaks
// ---------------------------------------------------------------------
/// The pieces of `s` between its line breaks, an empty piece after a
/// final line break included.
pub open spec fn pieces(s: Seq<char>) -> Seq<Seq<char>> {
    pieces_acc(s, Seq::empty(), Seq::empty())
}

/// The pieces without an empty last one.
pub open spec fn drop_final_empty(p: Seq<Seq<char>>) -> Seq<Seq<char>> {
    if p.len() > 0 && p.last().len() == 0 {
        p.drop_last()
    } else {
        p
    }
}

/// Whether a text holds no line break.
pub open spec fn no_newline(s: Seq<char>) -> bool {
    forall|i: int| 0 <= i < s.len() ==> #[trigger] s[i] != '\n'
}

/// Whether a text ends in a carriage return.
pub open spec fn ends_cr(s: Seq<char>) -> bool {
    s.len() > 0 && s.last() == '\r'
}

/// Whether a text holds whitespace only.
pub open spec fn all_ws(s: Seq<char>) -> bool {
    forall|i: int| 0 <= i < s.len() ==> is_ws(#[trigger] s[i])
}

/// Lines are the pieces, but for an empty last piece, where no `\r`
/// stands before a line break.
pub proof fn lemma_lines_are_pieces(s: Seq<char>, done: Seq<Seq<char>>, cur: Seq<char>)
    requires
        crlf_free(cur + s),
    ensures
        lines_acc(s, done, cur) == drop_final_empty(pieces_acc(s, done, cur)),
    decreases s.len(),
{
    let t = cur + s;
    if s.len() == 0 {
        assert(done.push(cur).drop_last() =~= done);
    } else if s[0] == '\n' {
        if cur.len() > 0 {
            assert(t[cur.len() as int] == '\n');
            assert(t[cur.len() - 1] == cur.last());
        }
        assert(strip_cr(cur) == cur);
        let t2 = Seq::<char>::empty() + s.drop_first();
        assert forall|k: int| 0 < k < t2.len() && #[trigger] t2[k] == '\n' implies t2[k - 1] != '\r' by {
            assert(t2[k] == t[cur.len() + 1 + k]);
            assert(t2[k - 1] == t[cur.len() + k]);
        }
        lemma_lines_are_pieces(s.drop_first(), done.push(cur), Seq::empty());
    } else {
        assert(cur.push(s[0]) + s.drop_first() =~= t);
        lemma_lines_are_pieces(s.drop_first(), done, cur.push(s[0]));
    }
}

/// The pieces hold no line break, and none but the last ends in `\r`,
/// where no `\r` stands before a line break.
pub proof fn lemma_pieces_shape(s: Seq<char>, done: Seq<Seq<char>>, cur: Seq<char>)
    requires
        forall|j: int| 0 <= j < done.len() ==> no_newline(#[trigger] done[j]) && !ends_cr(done[j]),
        no_newline(cur),
        crlf_free(cur + s),
    ensures
        pieces_acc(s, done, cur).len() >= done.len() + 1,
        forall|j: int|
            0 <= j < pieces_acc(s, done, cur).len() ==> no_newline(
                #[trigger] pieces_acc(s, done, cur)[j],
            ),
        forall|j: int|
            0 <= j < pieces_acc(s, done, cur).len() - 1 ==> !ends_cr(
                #[trigger] pieces_acc(s, done, cur)[j],
            ),
    decreases s.len(),
{
    let t = cur + s;
    if s.len() == 0 {
        let p = done.push(cur);
        assert forall|j: int| 0 <= j < p.len() implies no_newline(#[trigger] p[j]) by {
            if j < done.len() {
                assert(p[j] == done[j]);
            }
        }
        assert forall|j: int| 0 <= j < p.len() - 1 implies !ends_cr(#[trigger] p[j]) by {
            assert(p[j] == done[j]);
        }
    } else if s[0] == '\n' {
        if cur.len() > 0 {
            assert(t[cur.len() as int] == '\n');
            assert(t[cur.len() - 1] == cur.last());
        }
        let d2 = done.push(cur);
        assert forall|j: int| 0 <= j < d2.len() implies no_newline(#[trigger] d2[j]) && !ends_cr(
            d2[j],
        ) by {
            if j < done.len() {
                assert(d2[j] == done[j]);
            }
        }
        let t2 = Seq::<char>::empty() + s.drop_first();
        assert forall|k: int| 0 < k < t2.len() && #[trigger] t2[k] == '\n' implies t2[k - 1] != '\r' by {
            assert(t2[k] == t[cur.len() + 1 + k]);
            assert(t2[k - 1] == t[cur.len() + k]);
        }
        lemma_pieces_shape(s.drop_first(), d2, Seq::empty());
    } else {
        assert(cur.push(s[0]) + s.drop_first() =~= t);
        assert forall|i: int| 0 <= i < cur.push(s[0]).len() implies #[trigger] cur.push(s[0])[i]
            != '\n' by {
            if i < cur.len() {
                assert(cur.push(s[0])[i] == cur[i]);
            }
        }
        lemma_pieces_shape(s.drop_first(), done, cur.push(s[0]));
    }
}

/// The pieces and piece being read after reading `s`.
pub open spec fn pieces_state(s: Seq<char>, done: Seq<Seq<char>>, cur: Seq<char>) -> (
    Seq<Seq<char>>,
    Seq<char>,
)
    decreases s.len(),
{
    if s.len() == 0 {
        (done, cur)
    } else if s[0] == '\n' {
        pieces_state(s.drop_first(), done.push(cur), Seq::empty())
    } else {
        pieces_state(s.drop_first(), done, cur.push(s[0]))
    }
}

proof fn lemma_pieces_state(s: Seq<char>, done: Seq<Seq<char>>, cur: Seq<char>)
    ensures
        pieces_acc(s, done, cur) == pieces_state(s, done, cur).0.push(pieces_state(s, done, cur).1),
    decreases s.len(),
{
    if s.len() > 0 {
        if s[0] == '\n' {
            lemma_pieces_state(s.drop_first(), done.push(cur), Seq::empty());
        } else {
            lemma_pieces_state(s.drop_first(), done, cur.push(s[0]));
        }
    }
}

proof fn lemma_pieces_concat(a: Seq<char>, b: Seq<char>, done: Seq<Seq<char>>, cur: Seq<char>)
    ensures
        pieces_acc(a + b, done, cur) == pieces_acc(
            b,
            pieces_state(a, done, cur).0,
            pieces_state(a, done, cur).1,
        ),
    decreases a.len(),
{
    if a.len() > 0 {
        assert((a + b).drop_first() =~= a.drop_first() + b);
        assert((a + b)[0] == a[0]);
        if a[0] == '\n' {
            lemma_pieces_concat(a.drop_first(), b, done.push(cur), Seq::empty());
        } else {
            lemma_pieces_concat(a.drop_first(), b, done, cur.push(a[0]));
        }
    } else {
        assert(a + b =~= b);
    }
}

pub proof fn lemma_pieces_of_line(p: Seq<char>, done: Seq<Seq<char>>, cur: Seq<char>)
    requires
        no_newline(p),
    ensures
        pieces_acc(p, done, cur) == done.push(cur + p),
    decreases p.len(),
{
    if p.len() == 0 {
        assert(cur + p =~= cur);
    } else {
        assert(p[0] != '\n');
        assert(cur.push(p[0]) + p.drop_first() =~= cur + p);
        lemma_pieces_of_line(p.drop_first(), done, cur.push(p[0]));
    }
}

/// Adding a line break and a piece without one adds that piece.
pub proof fn lemma_pieces_append_line(a: Seq<char>, p: Seq<char>)
    requires
        no_newline(p),
    ensures
        pieces(a + seq!['\n'] + p) == pieces(a).push(p),
{
    let st = pieces_state(a, Seq::empty(), Seq::empty());
    assert(a + seq!['\n'] + p =~= a + (seq!['\n'] + p));
    lemma_pieces_concat(a, seq!['\n'] + p, Seq::empty(), Seq::empty());
    lemma_pieces_state(a, Seq::empty(), Seq::empty());
    assert((seq!['\n'] + p).drop_first() =~= p);
    assert((seq!['\n'] + p)[0] == '\n');
    lemma_pieces_of_line(p, st.0.push(st.1), Seq::empty());
    assert(Seq::<char>::empty() + p =~= p);
}

// ---------------------------------------------------------------------
// Trimming and indentation
// ---------------------------------------------------------------------
/// Trailing whitespace goes when trimming at the end.
pub proof fn lemma_trim_end_ws_suffix(x: Seq<char>, w: Seq<char>)
    requires
        all_ws(w),
    ensures
        trim_end(x + w) == trim_end(x),
    decreases w.len(),
{
    if w.len() > 0 {
        assert((x + w).last() == w.last());
        assert((x + w).drop_last() =~= x + w.drop_last());
        lemma_trim_end_ws_suffix(x, w.drop_last());
    } else {
        assert(x + w =~= x);
    }
}

/// Whether a text holds a character that is not whitespace.
pub open spec fn has_non_ws(s: Seq<char>) -> bool {
    exists|i: int| 0 <= i < s.len() && !is_ws(#[trigger] s[i])
}

/// Trimming a text that ends in one with a non-whitespace character only
/// trims that one.
pub proof fn lemma_trim_end_keeps(x: Seq<char>, y: Seq<char>)
    requires
        has_non_ws(y),
    ensures
        trim_end(x + y) == x + trim_end(y),
        has_non_ws(trim_end(y)),
        trim_end(y).len() > 0,
        !is_ws(trim_end(y).last()),
    decreases y.len(),
{
    let i = choose|i: int| 0 <= i < y.len() && !is_ws(#[trigger] y[i]);
    assert((x + y).last() == y.last());
    if is_ws(y.last()) {
        assert(i < y.len() - 1);
        assert(y.drop_last()[i] == y[i]);
        assert((x + y).drop_last() =~= x + y.drop_last());
        lemma_trim_end_keeps(x, y.drop_last());
    } else {
        assert(trim_end(y) == y);
    }
}

/// Trimming at the end leaves a prefix.
pub proof fn lemma_trim_end_prefix(s: Seq<char>)
    ensures
        trim_end(s).len() <= s.len(),
        trim_end(s) == s.take(trim_end(s).len() as int),
    decreases s.len(),
{
    if s.len() > 0 && is_ws(s.last()) {
        lemma_trim_end_prefix(s.drop_last());
        assert(s.drop_last().take(trim_end(s).len() as int) =~= s.take(trim_end(s).len() as int));
    } else {
        assert(s.take(s.len() as int) =~= s);
    }
}

/// Trimming twice is trimming once.
pub proof fn lemma_trim_end_idempotent(s: Seq<char>)
    ensures
        trim_end(trim_end(s)) == trim_end(s),
    decreases s.len(),
{
    if s.len() > 0 && is_ws(s.last()) {
        lemma_trim_end_idempotent(s.drop_last());
    }
}

/// Spaces are whitespace.
pub proof fn lemma_spaces_ws(n: nat)
    ensures
        spaces(n).len() == n,
        all_ws(spaces(n)),
        forall|i: int| 0 <= i < n ==> #[trigger] spaces(n)[i] == ' ',
{
}

/// Leading spaces count as leading whitespace.
pub proof fn lemma_leading_ws_spaces(n: nat, l: Seq<char>)
    ensures
        leading_ws(spaces(n) + l) == n + leading_ws(l),
    decreases n,
{
    if n > 0 {
        assert((spaces(n) + l)[0] == ' ');
        assert((spaces(n) + l).drop_first() =~= spaces((n - 1) as nat) + l);
        lemma_leading_ws_spaces((n - 1) as nat, l);
    } else {
        assert(spaces(0) + l =~= l);
    }
}

/// Cutting as many bytes as there are leading spaces leaves the rest.
pub proof fn lemma_suffix_after_spaces(n: nat, l: Seq<char>)
    ensures
        suffix_at_byte(spaces(n) + l, n) == Some(l),
    decreases n,
{
    if n > 0 {
        assert((spaces(n) + l)[0] == ' ');
        assert(utf8_len(' ') == 1);
        assert((spaces(n) + l).drop_first() =~= spaces((n - 1) as nat) + l);
        lemma_suffix_after_spaces((n - 1) as nat, l);
    } else {
        assert(spaces(0) + l =~= l);
    }
}


/// Leading whitespace goes when trimming at the start.
pub proof fn lemma_trim_start_ws_prefix(w: Seq<char>, x: Seq<char>)
    requires
        all_ws(w),
    ensures
        trim_start(w + x) == trim_start(x),
    decreases w.len(),
{
    if w.len() > 0 {
        assert((w + x)[0] == w[0]);
        assert((w + x).drop_first() =~= w.drop_first() + x);
        lemma_trim_start_ws_prefix(w.drop_first(), x);
    } else {
        assert(w + x =~= x);
    }
}

/// Trimming at the start stops within a text that holds a character that
/// is not whitespace.
pub proof fn lemma_trim_start_keeps(x: Seq<char>, y: Seq<char>)
    requires
        has_non_ws(x),
    ensures
        trim_start(x + y) == trim_start(x) + y,
        trim_start(x).len() > 0,
    decreases x.len(),
{
    let i = choose|i: int| 0 <= i < x.len() && !is_ws(#[trigger] x[i]);
    assert((x + y)[0] == x[0]);
    if is_ws(x[0]) {
        assert(i > 0);
        assert(x.drop_first()[i - 1] == x[i]);
        assert((x + y).drop_first() =~= x.drop_first() + y);
        lemma_trim_start_keeps(x.drop_first(), y);
    }
}

} // verus!
