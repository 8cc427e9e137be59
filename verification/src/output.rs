//! Text helpers of the snapshot printer: which line endings a text uses,
//! whether they matter in a diff, how invisible characters are shown, and
//! the terminal escape that links a file.
use vstd::prelude::*;

use crate::text::chars_of;

verus! {

broadcast use vstd::std_specs::vec::group_vec_axioms;

/// The line ending a text ends with: `\r\n`, `\r`, `\n` or none.
pub open spec fn trailing_nl(s: Seq<char>) -> Seq<char> {
    if s.len() >= 2 && s[s.len() - 2] == '\r' && s[s.len() - 1] == '\n' {
        seq!['\r', '\n']
    } else if s.len() >= 1 && s[s.len() - 1] == '\r' {
        seq!['\r']
    } else if s.len() >= 1 && s[s.len() - 1] == '\n' {
        seq!['\n']
    } else {
        seq![]
    }
}

/// Whether the text has a `\r` that no `\n` follows.
pub open spec fn has_cr(s: Seq<char>) -> bool {
    exists|i: int| 0 <= i < s.len() && #[trigger] s[i] == '\r' && !(i + 1 < s.len() && s[i + 1] == '\n')
}

/// Whether the text has a `\r\n`.
pub open spec fn has_crlf(s: Seq<char>) -> bool {
    exists|i: int| 0 <= i < s.len() && #[trigger] s[i] == '\r' && i + 1 < s.len() && s[i + 1] == '\n'
}

/// Whether the text has a `\n` that no `\r` precedes.
pub open spec fn has_lf(s: Seq<char>) -> bool {
    exists|i: int| 0 <= i < s.len() && #[trigger] s[i] == '\n' && !(i > 0 && s[i - 1] == '\r')
}

/// Returns the line ending the text ends with.
pub fn trailing_newline(s: &str) -> (r: &'static str)
    ensures
        r@ == trailing_nl(s@),
{
    let cs = chars_of(s);
    let n = cs.len();
    proof {
        reveal_strlit("\r\n");
        reveal_strlit("\r");
        reveal_strlit("\n");
        reveal_strlit("");
    }
    if n >= 2 && cs[n - 2] == '\r' && cs[n - 1] == '\n' {
        assert("\r\n"@ =~= seq!['\r', '\n']);
        "\r\n"
    } else if n >= 1 && cs[n - 1] == '\r' {
        assert("\r"@ =~= seq!['\r']);
        "\r"
    } else if n >= 1 && cs[n - 1] == '\n' {
        assert("\n"@ =~= seq!['\n']);
        "\n"
    } else {
        assert(""@ =~= Seq::<char>::empty());
        ""
    }
}

/// Which line endings a text uses: a lone `\r`, `\r\n`, a lone `\n`.
pub fn detect_newlines(s: &str) -> (r: (bool, bool, bool))
    ensures
        r == (has_cr(s@), has_crlf(s@), has_lf(s@)),
{
    let cs = chars_of(s);
    let mut last: Option<char> = None;
    let mut detected_crlf = false;
    let mut detected_cr = false;
    let mut detected_lf = false;
    let mut i: usize = 0;
    while i < cs.len()
        invariant
            cs@ == s@,
            i <= cs@.len(),
            last == if i == 0 {
                None::<char>
            } else if cs@[i - 1] == '\n' {
                None::<char>
            } else {
                Some(cs@[i - 1])
            },
            detected_crlf == exists|j: int|
                0 <= j < i && #[trigger] cs@[j] == '\r' && j + 1 < i && cs@[j + 1] == '\n',
            detected_lf == exists|j: int|
                0 <= j < i && #[trigger] cs@[j] == '\n' && !(j > 0 && cs@[j - 1] == '\r'),
            detected_cr == exists|j: int|
                0 < j < i && cs@[j - 1] == '\r' && !(#[trigger] cs@[j] == '\n'),
        decreases cs.len() - i,
    {
        let c = cs[i];
        let prev = last;
        if c == '\n' {
            if prev == Some('\r') {
                detected_crlf = true;
            } else {
                detected_lf = true;
            }
            last = None;
        }
        if last == Some('\r') {
            detected_cr = true;
        }
        last = Some(c);
        if c == '\n' {
            last = None;
        }
        proof {
            let ii = i as int;
            if c == '\n' && prev == Some('\r') {
                assert(cs@[ii - 1] == '\r' && cs@[ii] == '\n');
            }
            if c == '\n' && prev != Some('\r') {
                assert(cs@[ii] == '\n' && !(ii > 0 && cs@[ii - 1] == '\r'));
            }
            if c != '\n' && prev == Some('\r') {
                assert(0 < ii < i + 1 && cs@[ii - 1] == '\r' && !(cs@[ii] == '\n'));
            }
            assert(detected_crlf == exists|j: int|
                0 <= j < i + 1 && #[trigger] cs@[j] == '\r' && j + 1 < i + 1 && cs@[j + 1] == '\n')
                by {
                if detected_crlf && !(c == '\n' && prev == Some('\r')) {
                    let j = choose|j: int|
                        0 <= j < i && #[trigger] cs@[j] == '\r' && j + 1 < i && cs@[j + 1] == '\n';
                    assert(0 <= j < i + 1 && cs@[j] == '\r' && j + 1 < i + 1 && cs@[j + 1] == '\n');
                }
            }
            assert(detected_lf == exists|j: int|
                0 <= j < i + 1 && #[trigger] cs@[j] == '\n' && !(j > 0 && cs@[j - 1] == '\r')) by {
                if detected_lf && !(c == '\n' && prev != Some('\r')) {
                    let j = choose|j: int|
                        0 <= j < i && #[trigger] cs@[j] == '\n' && !(j > 0 && cs@[j - 1] == '\r');
                    assert(0 <= j < i + 1 && cs@[j] == '\n');
                }
            }
            assert(detected_cr == exists|j: int|
                0 < j < i + 1 && cs@[j - 1] == '\r' && !(#[trigger] cs@[j] == '\n')) by {
                if detected_cr && !(c != '\n' && prev == Some('\r')) {
                    let j = choose|j: int|
                        0 < j < i && cs@[j - 1] == '\r' && !(#[trigger] cs@[j] == '\n');
                    assert(0 < j < i + 1 && cs@[j - 1] == '\r' && !(cs@[j] == '\n'));
                }
                if (exists|j: int| 0 < j < i + 1 && cs@[j - 1] == '\r' && !(#[trigger] cs@[j] == '\n')) && !(c != '\n' && prev == Some('\r')) {
                    let j = choose|j: int| 0 < j < i + 1 && cs@[j - 1] == '\r' && !(#[trigger] cs@[j] == '\n');
                    if j == i {
                        assert(cs@[ii - 1] == '\r');
                        assert(c != '\n');
                        assert(prev == Some('\r'));
                    }
                    assert(0 < j < i && cs@[j - 1] == '\r' && !(cs@[j] == '\n'));
                }
            }
        }
        i += 1;
    }
    if last == Some('\r') {
        detected_cr = true;
    }
    proof {
        let n = cs@.len() as int;
        if last == Some('\r') {
            assert(cs@[n - 1] == '\r' && !(n - 1 + 1 < n && cs@[n - 1 + 1] == '\n'));
        }
        assert(detected_cr == has_cr(s@)) by {
            if has_cr(s@) && !(last == Some('\r')) {
                let j = choose|j: int|
                    0 <= j < n && #[trigger] s@[j] == '\r' && !(j + 1 < n && s@[j + 1] == '\n');
                if j == n - 1 {
                    assert(cs@[n - 1] == '\r');
                }
                assert(j < n - 1);
                assert(0 < j + 1 < n && cs@[j + 1 - 1] == '\r' && !(cs@[j + 1] == '\n'));
            }
            if detected_cr && !(last == Some('\r')) {
                let j = choose|j: int| 0 < j < n && cs@[j - 1] == '\r' && !(#[trigger] cs@[j] == '\n');
                let k = j - 1;
                assert(0 <= k < n && s@[k] == '\r' && !(k + 1 < n && s@[k + 1] == '\n'));
            }
        }
        assert(detected_crlf == has_crlf(s@));
        assert(detected_lf == has_lf(s@));
    }
    (detected_cr, detected_crlf, detected_lf)
}

/// Whether the line endings of two texts matter in their diff: they end
/// differently, or between them they use more than one kind of line
/// ending.
pub open spec fn newlines_differ(left: Seq<char>, right: Seq<char>) -> bool {
    let cr = has_cr(left) || has_cr(right);
    let crlf = has_crlf(left) || has_crlf(right);
    let lf = has_lf(left) || has_lf(right);
    trailing_nl(left) != trailing_nl(right) || (cr && crlf) || (cr && lf) || (crlf && lf)
}

fn same_str(a: &str, b: &str) -> (r: bool)
    ensures
        r == (a@ == b@),
{
    crate::env::str_eq(a, b)
}

/// Whether the line endings of two texts matter when they are compared.
pub fn newlines_matter(left: &str, right: &str) -> (r: bool)
    ensures
        r == newlines_differ(left@, right@),
{
    if !same_str(trailing_newline(left), trailing_newline(right)) {
        return true;
    }
    let (cr1, crlf1, lf1) = detect_newlines(left);
    let (cr2, crlf2, lf2) = detect_newlines(right);
    let cr = cr1 || cr2;
    let crlf = crlf1 || crlf2;
    let lf = lf1 || lf2;
    !((!cr && !crlf && !lf) || (cr && !crlf && !lf) || (!cr && crlf && !lf) || (!cr && !crlf
        && lf))
}

/// Whether `c` is one of the control characters that are always shown:
/// escape, bell, backspace and delete.
pub open spec fn is_shown_control(c: char) -> bool {
    c == '\u{1b}' || c == '\u{7}' || c == '\u{8}' || c == '\u{7f}'
}

/// How the character at `i` is shown: a line ending gets its symbol
/// before it (`\r\n` gets both symbols before both characters), and the
/// control characters are replaced by their symbols.
pub open spec fn shown_at(s: Seq<char>, i: int) -> Seq<char> {
    let c = s[i];
    if c == '\r' {
        if i + 1 < s.len() && s[i + 1] == '\n' {
            seq!['\u{240d}', '\u{240a}', '\r', '\n']
        } else {
            seq!['\u{240d}', '\r']
        }
    } else if c == '\n' {
        if i > 0 && s[i - 1] == '\r' {
            seq![]
        } else {
            seq!['\u{240a}', '\n']
        }
    } else if c == '\u{7}' {
        seq!['\u{2407}']
    } else if c == '\u{8}' {
        seq!['\u{2408}']
    } else if c == '\u{1b}' {
        seq!['\u{241b}']
    } else if c == '\u{7f}' {
        seq!['\u{2421}']
    } else {
        seq![c]
    }
}

/// How the characters from `i` on are shown.
pub open spec fn shown_from(s: Seq<char>, i: int) -> Seq<char>
    decreases s.len() - i,
{
    if i < 0 || i >= s.len() {
        seq![]
    } else {
        shown_at(s, i) + shown_from(s, i + 1)
    }
}

/// The text as it is printed: with its invisible characters shown where
/// line endings matter or it has a control character that is always shown,
/// else unchanged.
pub open spec fn rendered(s: Seq<char>, newlines_matter: bool) -> Seq<char> {
    if newlines_matter || (exists|i: int| 0 <= i < s.len() && is_shown_control(#[trigger] s[i])) {
        shown_from(s, 0)
    } else {
        s
    }
}

/// Makes the invisible characters of a text visible.
pub fn render_invisible(s: &str, newlines_matter: bool) -> (r: String)
    ensures
        r@ == rendered(s@, newlines_matter),
{
    let cs = chars_of(s);
    let mut found = false;
    let mut k: usize = 0;
    while k < cs.len()
        invariant
            cs@ == s@,
            k <= cs@.len(),
            found == exists|i: int| 0 <= i < k && is_shown_control(#[trigger] cs@[i]),
        decreases cs.len() - k,
    {
        let c = cs[k];
        if c == '\u{1b}' || c == '\u{7}' || c == '\u{8}' || c == '\u{7f}' {
            found = true;
        }
        k += 1;
    }
    if !(newlines_matter || found) {
        return crate::text::string_from(cs.as_slice());
    }
    let mut out: Vec<char> = Vec::new();
    let mut i: usize = 0;
    while i < cs.len()
        invariant
            cs@ == s@,
            i <= cs@.len(),
            out@ + shown_from(cs@, i as int) == shown_from(cs@, 0),
        decreases cs.len() - i,
    {
        let c = cs[i];
        let ghost before = out@;
        if c == '\r' {
            if i + 1 < cs.len() && cs[i + 1] == '\n' {
                out.push('\u{240d}');
                out.push('\u{240a}');
                out.push('\r');
                out.push('\n');
            } else {
                out.push('\u{240d}');
                out.push('\r');
            }
        } else if c == '\n' {
            if !(i > 0 && cs[i - 1] == '\r') {
                out.push('\u{240a}');
                out.push('\n');
            }
        } else if c == '\u{7}' {
            out.push('\u{2407}');
        } else if c == '\u{8}' {
            out.push('\u{2408}');
        } else if c == '\u{1b}' {
            out.push('\u{241b}');
        } else if c == '\u{7f}' {
            out.push('\u{2421}');
        } else {
            out.push(c);
        }
        assert(out@ =~= before + shown_at(cs@, i as int));
        i += 1;
    }
    assert(shown_from(cs@, i as int) =~= Seq::<char>::empty());
    assert(out@ + Seq::<char>::empty() =~= out@);
    crate::text::string_from(out.as_slice())
}

/// The terminal escape that shows `path` as a link to the file.
pub open spec fn file_link(path: Seq<char>) -> Seq<char> {
    seq!['\u{1b}', ']', '8', ';', ';', 'f', 'i', 'l', 'e', ':', '/', '/'] + path + seq![
        '\u{1b}',
        '\\',
    ] + path + seq!['\u{1b}', ']', '8', ';', ';', '\u{1b}', '\\']
}

/// Wraps an absolute path into the terminal escape that links the file.
pub fn encode_file_link_escape(path: &str) -> (r: String)
    requires
        path@.len() > 0 && path@[0] == '/',
    ensures
        r@ == file_link(path@),
{
    let p = chars_of(path);
    let mut out: Vec<char> = Vec::new();
    out.push('\u{1b}');
    out.push(']');
    out.push('8');
    out.push(';');
    out.push(';');
    out.push('f');
    out.push('i');
    out.push('l');
    out.push('e');
    out.push(':');
    out.push('/');
    out.push('/');
    crate::text::push_all(&mut out, p.as_slice());
    out.push('\u{1b}');
    out.push('\\');
    crate::text::push_all(&mut out, p.as_slice());
    out.push('\u{1b}');
    out.push(']');
    out.push('8');
    out.push(';');
    out.push(';');
    out.push('\u{1b}');
    out.push('\\');
    assert(out@ =~= file_link(path@));
    crate::text::string_from(out.as_slice())
}

} // verus!
