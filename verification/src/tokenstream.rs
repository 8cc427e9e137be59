//! Normalising doc comment text: the common indentation of a block doc
//! comment is removed, as rustdoc does.
use vstd::prelude::*;

use crate::snapshot::is_blank;
use crate::text::{
    byte_len, byte_len_of_prefix, chars_of, get_suffix_at_byte, is_ws, leading_ws,
    lemma_pieces_append_line, lemma_pieces_of_line, lines, lines_acc, no_newline, pieces,
    pieces_acc, split_lines, string_from, strip_cr, suffix_at_byte, trim, trim_end, trim_start,
    trim_start_len, utf8_len, deep,
};

verus! {

broadcast use vstd::std_specs::vec::group_vec_axioms;

/// The number of bytes of the leading whitespace of a line.
pub open spec fn lead_bytes(l: Seq<char>) -> nat {
    byte_len(l.take(leading_ws(l) as int))
}

/// The smaller of two optional numbers, or whichever is there.
pub open spec fn min_opt(a: Option<nat>, b: Option<nat>) -> Option<nat> {
    match (a, b) {
        (Some(x), Some(y)) => Some(if x <= y { x } else { y }),
        (Some(x), None) => Some(x),
        (None, y) => y,
    }
}

/// The least indentation, in bytes, of the lines from `i` on that are not
/// blank.
pub open spec fn min_lead_from(ls: Seq<Seq<char>>, i: int) -> Option<nat>
    decreases ls.len() - i,
{
    if i < 0 || i >= ls.len() {
        None
    } else {
        min_opt(
            if trim(ls[i]).len() == 0 {
                None
            } else {
                Some(lead_bytes(ls[i]))
            },
            min_lead_from(ls, i + 1),
        )
    }
}

/// A line after the first, with `m` bytes of indentation removed: blank
/// lines become empty.
pub open spec fn dedented_line(l: Seq<char>, m: nat) -> Seq<char> {
    if trim(l).len() == 0 {
        seq![]
    } else if byte_len(l) >= m {
        match suffix_at_byte(l, m) {
            Some(t) => t,
            None => seq![],
        }
    } else {
        l
    }
}

/// Whether removing `m` bytes from every line after the first that is not
/// blank cuts at a character boundary.
pub open spec fn cuts_ok(ls: Seq<Seq<char>>, m: nat) -> bool {
    forall|i: int|
        1 <= i < ls.len() && !(trim(#[trigger] ls[i]).len() == 0) && byte_len(ls[i]) >= m ==> suffix_at_byte(
            ls[i],
            m,
        ) is Some
}

/// The first `n` lines joined with line breaks, the first as it is and the
/// others dedented by `m` bytes.
pub open spec fn rebuilt(ls: Seq<Seq<char>>, m: nat, n: int) -> Seq<char>
    decreases n,
{
    if n <= 0 {
        seq![]
    } else if n == 1 {
        ls[0]
    } else {
        rebuilt(ls, m, n - 1) + seq!['\n'] + dedented_line(ls[n - 1], m)
    }
}

/// Whether the text can be dedented: removing the common indentation cuts
/// every line at a character boundary.
pub open spec fn dedent_ok(s: Seq<char>) -> bool {
    match min_lead_from(lines(s), 1) {
        Some(m) => m == 0 || cuts_ok(lines(s), m),
        None => true,
    }
}

/// The text with the common indentation of its lines after the first
/// removed, keeping a final line break.
pub open spec fn dedented(s: Seq<char>) -> Seq<char> {
    let ls = lines(s);
    match min_lead_from(ls, 1) {
        Some(m) => if m == 0 {
            s
        } else {
            let r = rebuilt(ls, m, ls.len() as int);
            if s.len() > 0 && s.last() == '\n' && !(r.len() > 0 && r.last() == '\n') {
                r.push('\n')
            } else {
                r
            }
        },
        None => s,
    }
}

/// Dedent a doc comment string by removing common leading whitespace,
/// similar to rustdoc's behavior.
pub fn dedent_doc_content(s: &str) -> (r: String)
    requires
        dedent_ok(s@),
    ensures
        r@ == dedented(s@),
{
    let cs = chars_of(s);
    let ls = split_lines(cs.as_slice());
    let ghost lv = lines(s@);
    let mut min: Option<u128> = None;
    let mut i: usize = ls.len();
    while i > 1
        invariant
            cs@ == s@,
            deep(ls@) == lv,
            lv == lines(s@),
            1 <= i <= ls@.len() || (i == ls@.len() && ls@.len() <= 1),
            match min {
                Some(x) => min_lead_from(lv, i as int) == Some(x as nat),
                None => min_lead_from(lv, i as int) is None,
            },
        decreases i,
    {
        i -= 1;
        let line = &ls[i];
        assert(line@ == lv[i as int]);
        if !is_blank(line.as_slice()) {
            let w = trim_start_len(line.as_slice());
            let b = byte_len_of_prefix(line.as_slice(), w);
            min = match min {
                Some(x) => Some(if b <= x { b } else { x }),
                None => Some(b),
            };
        }
    }
    proof {
        if ls@.len() <= 1 {
            assert(min_lead_from(lv, 1) is None);
        }
    }
    let m = match min {
        Some(m) => m,
        None => return string_from(cs.as_slice()),
    };
    if m == 0 {
        return string_from(cs.as_slice());
    }
    let mut out: Vec<char> = Vec::new();
    let mut j: usize = 0;
    while j < ls.len()
        invariant
            cs@ == s@,
            deep(ls@) == lv,
            lv == lines(s@),
            j <= ls@.len(),
            m > 0,
            min_lead_from(lv, 1) == Some(m as nat),
            cuts_ok(lv, m as nat),
            out@ == rebuilt(lv, m as nat, j as int),
        decreases ls.len() - j,
    {
        let line = &ls[j];
        assert(line@ == lv[j as int]);
        let ghost before = out@;
        if j > 0 {
            out.push('\n');
        }
        if j == 0 {
            crate::text::push_all(&mut out, line.as_slice());
        } else if is_blank(line.as_slice()) {
        } else {
            let total = byte_len_of_prefix(line.as_slice(), line.len());
            assert(line@.take(line@.len() as int) =~= line@);
            if total >= m {
                match get_suffix_at_byte(line.as_slice(), m) {
                    Some(t) => crate::text::push_all(&mut out, t.as_slice()),
                    None => {},
                }
            } else {
                crate::text::push_all(&mut out, line.as_slice());
            }
        }
        assert(out@ =~= rebuilt(lv, m as nat, j + 1));
        j += 1;
    }
    if cs.len() > 0 && cs[cs.len() - 1] == '\n' && !(out.len() > 0 && out[out.len() - 1] == '\n') {
        out.push('\n');
    }
    string_from(out.as_slice())
}

// ---------------------------------------------------------------------
// Dedenting twice
// ---------------------------------------------------------------------
proof fn lemma_lines_no_newline(s: Seq<char>, done: Seq<Seq<char>>, cur: Seq<char>)
    requires
        forall|j: int| 0 <= j < done.len() ==> no_newline(#[trigger] done[j]),
        no_newline(cur),
    ensures
        forall|j: int|
            0 <= j < lines_acc(s, done, cur).len() ==> no_newline(#[trigger] lines_acc(s, done, cur)[j]),
    decreases s.len(),
{
    if s.len() == 0 {
        if cur.len() > 0 {
            assert forall|j: int| 0 <= j < done.push(cur).len() implies no_newline(
                #[trigger] done.push(cur)[j],
            ) by {
                if j < done.len() {
                    assert(done.push(cur)[j] == done[j]);
                }
            }
        }
    } else if s[0] == '\n' {
        let d2 = done.push(strip_cr(cur));
        assert forall|j: int| 0 <= j < d2.len() implies no_newline(#[trigger] d2[j]) by {
            if j < done.len() {
                assert(d2[j] == done[j]);
            } else {
                assert forall|i: int| 0 <= i < strip_cr(cur).len() implies #[trigger] strip_cr(cur)[i]
                    != '\n' by {
                    assert(strip_cr(cur)[i] == cur[i]);
                }
            }
        }
        assert(no_newline(Seq::<char>::empty()));
        lemma_lines_no_newline(s.drop_first(), d2, Seq::empty());
        assert(lines_acc(s, done, cur) == lines_acc(s.drop_first(), d2, Seq::empty()));
    } else {
        assert forall|i: int| 0 <= i < cur.push(s[0]).len() implies #[trigger] cur.push(s[0])[i]
            != '\n' by {
            if i < cur.len() {
                assert(cur.push(s[0])[i] == cur[i]);
            }
        }
        lemma_lines_no_newline(s.drop_first(), done, cur.push(s[0]));
        assert(lines_acc(s, done, cur) == lines_acc(s.drop_first(), done, cur.push(s[0])));
    }
}

proof fn lemma_suffix_no_newline(x: Seq<char>, k: nat)
    requires
        no_newline(x),
    ensures
        suffix_at_byte(x, k) matches Some(t) ==> no_newline(t),
    decreases x.len(),
{
    if k != 0 && x.len() > 0 && k >= utf8_len(x[0]) {
        assert forall|i: int| 0 <= i < x.drop_first().len() implies #[trigger] x.drop_first()[i]
            != '\n' by {
            assert(x.drop_first()[i] == x[i + 1]);
        }
        lemma_suffix_no_newline(x.drop_first(), (k - utf8_len(x[0])) as nat);
    }
}

proof fn lemma_suffix_at_lead(x: Seq<char>, n: int)
    requires
        0 <= n <= x.len(),
    ensures
        suffix_at_byte(x, byte_len(x.take(n))) == Some(x.skip(n)),
    decreases n,
{
    if n == 0 {
        assert(x.take(0) =~= Seq::<char>::empty());
        assert(x.skip(0) =~= x);
    } else {
        let t = x.drop_first();
        lemma_suffix_at_lead(t, n - 1);
        assert(x.take(n).drop_first() =~= t.take(n - 1));
        assert(x.take(n)[0] == x[0]);
        assert(byte_len(x.take(n)) == utf8_len(x[0]) + byte_len(t.take(n - 1)));
        assert(t.skip(n - 1) =~= x.skip(n));
    }
}

proof fn lemma_leading_ws(x: Seq<char>)
    ensures
        leading_ws(x) <= x.len(),
        forall|j: int| 0 <= j < leading_ws(x) ==> is_ws(#[trigger] x[j]),
        leading_ws(x) < x.len() ==> !is_ws(x[leading_ws(x) as int]),
        leading_ws(x) == x.len() ==> trim(x).len() == 0,
    decreases x.len(),
{
    if x.len() > 0 && is_ws(x[0]) {
        let t = x.drop_first();
        lemma_leading_ws(t);
        assert forall|j: int| 0 <= j < leading_ws(x) implies is_ws(#[trigger] x[j]) by {
            if j > 0 {
                assert(x[j] == t[j - 1]);
            }
        }
        if leading_ws(x) < x.len() {
            assert(x[leading_ws(x) as int] == t[leading_ws(t) as int]);
        }
        assert(trim_start(x) == trim_start(t));
    } else if x.len() == 0 {
        assert(trim_start(x) == x);
    }
}

proof fn lemma_trim_end_keeps_first(x: Seq<char>)
    requires
        x.len() > 0,
        !is_ws(x[0]),
    ensures
        trim_end(x).len() > 0,
    decreases x.len(),
{
    if is_ws(x.last()) {
        assert(x.len() > 1);
        assert(x.drop_last()[0] == x[0]);
        lemma_trim_end_keeps_first(x.drop_last());
    }
}

proof fn lemma_starts_unindented(x: Seq<char>)
    requires
        x.len() > 0,
        !is_ws(x[0]),
    ensures
        trim(x).len() > 0,
        lead_bytes(x) == 0,
{
    assert(trim_start(x) == x);
    lemma_trim_end_keeps_first(x);
    assert(x.take(0) =~= Seq::<char>::empty());
}

proof fn lemma_min_witness(ls: Seq<Seq<char>>, i: int) -> (k: int)
    requires
        min_lead_from(ls, i) is Some,
    ensures
        0 <= i <= k < ls.len(),
        trim(ls[k]).len() != 0,
        min_lead_from(ls, i) == Some(lead_bytes(ls[k])),
    decreases ls.len() - i,
{
    let here: Option<nat> = if trim(ls[i]).len() == 0 {
        None
    } else {
        Some(lead_bytes(ls[i]))
    };
    let rest = min_lead_from(ls, i + 1);
    match rest {
        None => i,
        Some(r) => {
            let k = lemma_min_witness(ls, i + 1);
            match here {
                Some(h) => if h <= r {
                    i
                } else {
                    k
                },
                None => k,
            }
        },
    }
}

proof fn lemma_min_zero(ls: Seq<Seq<char>>, i: int, k: int)
    requires
        0 <= i <= k < ls.len(),
        trim(ls[k]).len() != 0,
        lead_bytes(ls[k]) == 0,
    ensures
        min_lead_from(ls, i) == Some(0nat),
    decreases k - i,
{
    if i < k {
        lemma_min_zero(ls, i + 1, k);
    }
}

proof fn lemma_rebuilt_pieces(ls: Seq<Seq<char>>, m: nat, n: int)
    requires
        1 <= n <= ls.len(),
        no_newline(ls[0]),
        forall|j: int| 1 <= j < n ==> no_newline(#[trigger] dedented_line(ls[j], m)),
    ensures
        pieces(rebuilt(ls, m, n)).len() == n,
        pieces(rebuilt(ls, m, n))[0] == ls[0],
        forall|j: int| 1 <= j < n ==> #[trigger] pieces(rebuilt(ls, m, n))[j] == dedented_line(ls[j], m),
    decreases n,
{
    if n == 1 {
        lemma_pieces_of_line(ls[0], Seq::empty(), Seq::empty());
        assert(Seq::<char>::empty() + ls[0] =~= ls[0]);
    } else {
        lemma_rebuilt_pieces(ls, m, n - 1);
        lemma_pieces_append_line(rebuilt(ls, m, n - 1), dedented_line(ls[n - 1], m));
    }
}

proof fn lemma_lines_vs_pieces(s: Seq<char>, done_l: Seq<Seq<char>>, done_p: Seq<Seq<char>>, cur: Seq<char>)
    requires
        done_l.len() == done_p.len(),
        forall|j: int| 0 <= j < done_l.len() ==> #[trigger] done_l[j] == strip_cr(done_p[j]),
    ensures
        ({
            let l = lines_acc(s, done_l, cur);
            let p = pieces_acc(s, done_p, cur);
            &&& p.len() >= 1
            &&& l.len() >= p.len() - 1
            &&& forall|j: int| 0 <= j < p.len() - 1 ==> #[trigger] l[j] == strip_cr(p[j])
            &&& p.last().len() > 0 ==> l.len() == p.len() && l[p.len() - 1] == p.last()
        }),
    decreases s.len(),
{
    if s.len() == 0 {
        assert forall|j: int| 0 <= j < done_p.push(cur).len() - 1 implies #[trigger] lines_acc(
            s,
            done_l,
            cur,
        )[j] == strip_cr(done_p.push(cur)[j]) by {
            assert(done_p.push(cur)[j] == done_p[j]);
            if cur.len() > 0 {
                assert(done_l.push(cur)[j] == done_l[j]);
            }
        }
    } else if s[0] == '\n' {
        let dl = done_l.push(strip_cr(cur));
        let dp = done_p.push(cur);
        assert forall|j: int| 0 <= j < dl.len() implies #[trigger] dl[j] == strip_cr(dp[j]) by {
            if j < done_l.len() {
                assert(dl[j] == done_l[j] && dp[j] == done_p[j]);
            }
        }
        lemma_lines_vs_pieces(s.drop_first(), dl, dp, Seq::empty());
    } else {
        lemma_lines_vs_pieces(s.drop_first(), done_l, done_p, cur.push(s[0]));
    }
}

/// Dedenting is idempotent: a dedented doc comment has lines after the
/// first without common indentation, so dedenting it again changes
/// nothing (and it can always be dedented).
pub proof fn lemma_dedent_idempotent(s: Seq<char>)
    requires
        dedent_ok(s),
    ensures
        dedent_ok(dedented(s)),
        dedented(dedented(s)) == dedented(s),
{
    let ls = lines(s);
    match min_lead_from(ls, 1) {
        None => {},
        Some(m) => {
            if m > 0 {
                let k = lemma_min_witness(ls, 1);
                let x = ls[k];
                let lw = leading_ws(x) as int;
                lemma_leading_ws(x);
                assert(lw < x.len());
                lemma_suffix_at_lead(x, lw);
                crate::text::lemma_byte_len_concat(x.take(lw), x.skip(lw));
                assert(x.take(lw) + x.skip(lw) =~= x);
                assert(cuts_ok(ls, m));
                let t = x.skip(lw);
                assert(dedented_line(x, m) == t);
                assert(t[0] == x[lw]);
                lemma_lines_no_newline(s, Seq::empty(), Seq::empty());
                assert forall|j: int| 1 <= j < ls.len() implies no_newline(
                    #[trigger] dedented_line(ls[j], m),
                ) by {
                    lemma_suffix_no_newline(ls[j], m);
                    assert(no_newline(Seq::<char>::empty()));
                }
                let n = ls.len() as int;
                lemma_rebuilt_pieces(ls, m, n);
                let r = rebuilt(ls, m, n);
                let d = dedented(s);
                let st = strip_cr(t);
                assert(st.len() > 0 && st[0] == t[0]);
                lemma_starts_unindented(st);
                lemma_starts_unindented(t);
                if d == r {
                    lemma_lines_vs_pieces(r, Seq::empty(), Seq::empty(), Seq::empty());
                    let ld = lines(d);
                    if k < n - 1 {
                        assert(ld[k] == st);
                    } else {
                        assert(ld[k] == t);
                    }
                    lemma_min_zero(ld, 1, k);
                } else {
                    assert(d == r.push('\n'));
                    assert(r.push('\n') =~= r + seq!['\n'] + Seq::<char>::empty());
                    assert(no_newline(Seq::<char>::empty()));
                    lemma_pieces_append_line(r, Seq::empty());
                    lemma_lines_vs_pieces(d, Seq::empty(), Seq::empty(), Seq::empty());
                    let ld = lines(d);
                    assert(pieces(d)[k] == t);
                    assert(ld[k] == st);
                    lemma_min_zero(ld, 1, k);
                }
            }
        },
    }
}

} // verus!
