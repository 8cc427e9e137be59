//! Filters applied to a snapshot before it is compared: regular
//! expressions with their replacements, and the stripping of ANSI escape
//! sequences.
use vstd::prelude::*;

use crate::text::{chars_of, contains_char, string_from};

verus! {

broadcast use vstd::std_specs::vec::group_vec_axioms;

/// Whether a pattern is a valid regular expression of the `regex` crate.
pub uninterp spec fn regex_ok(pattern: Seq<char>) -> bool;

/// The text with every match of the pattern replaced, as the `regex` crate
/// replaces all matches (with `$name` and `$n` in the replacement standing
/// for capture groups).
pub uninterp spec fn regex_replaced(pattern: Seq<char>, text: Seq<char>, replacement: Seq<char>) -> Seq<
    char,
>;

/// The text without its ANSI escape sequences, as `strip_ansi_escapes`
/// strips them.
pub uninterp spec fn ansi_stripped(text: Seq<char>) -> Seq<char>;

/// Whether `pattern` compiles: calls `regex::Regex::new` and says whether
/// it succeeded.
#[verifier::external_body]
fn regex_compiles(pattern: &str) -> (r: bool)
    ensures
        r == regex_ok(pattern@),
{
    regex::Regex::new(pattern).is_ok()
}

/// Replaces every match of `pattern` in `text`: compiles the pattern with
/// `regex::Regex::new` and calls `Regex::replace_all`.  The result is named
/// `regex_replaced` of the pattern, the text and the replacement.
#[verifier::external_body]
fn regex_replace_all(pattern: &str, text: &str, replacement: &str) -> (r: String)
    requires
        regex_ok(pattern@),
    ensures
        r@ == regex_replaced(pattern@, text@, replacement@),
{
    regex::Regex::new(pattern).unwrap().replace_all(text, replacement).into_owned()
}

/// Strips ANSI escape sequences: calls `strip_ansi_escapes::strip_str`.
/// The result is named `ansi_stripped` of the text.
#[verifier::external_body]
fn strip_ansi(text: &str) -> (r: String)
    ensures
        r@ == ansi_stripped(text@),
{
    strip_ansi_escapes::strip_str(text)
}

/// The text after applying the first `n` rules in order.
pub open spec fn filtered(rules: Seq<(Seq<char>, Seq<char>)>, text: Seq<char>, n: int) -> Seq<char>
    decreases n,
{
    if n <= 0 || n > rules.len() {
        text
    } else {
        regex_replaced(rules[n - 1].0, filtered(rules, text, n - 1), rules[n - 1].1)
    }
}

/// Represents stored filters: regular expressions with their
/// replacements, applied in order.
#[derive(Debug, Clone)]
pub struct Filters {
    rules: Vec<(String, String)>,
}

impl View for Filters {
    type V = Seq<(Seq<char>, Seq<char>)>;

    closed spec fn view(&self) -> Seq<(Seq<char>, Seq<char>)> {
        self.rules@.map_values(|r: (String, String)| (r.0@, r.1@))
    }
}

impl Filters {
    /// Whether every pattern compiles.
    pub open spec fn wf(&self) -> bool {
        forall|i: int| 0 <= i < self@.len() ==> regex_ok(#[trigger] self@[i].0)
    }

    /// No filters.
    pub fn new() -> (r: Filters)
        ensures
            r@ == Seq::<(Seq<char>, Seq<char>)>::empty(),
            r.wf(),
    {
        let r = Filters { rules: Vec::new() };
        assert(r@ =~= Seq::<(Seq<char>, Seq<char>)>::empty());
        r
    }

    /// Whether every pattern compiles.
    pub fn all_compile(&self) -> (r: bool)
        ensures
            r == self.wf(),
    {
        let mut i: usize = 0;
        while i < self.rules.len()
            invariant
                i <= self.rules@.len(),
                forall|k: int| 0 <= k < i ==> regex_ok(#[trigger] self@[k].0),
            decreases self.rules.len() - i,
        {
            assert(self@[i as int] == (self.rules@[i as int].0@, self.rules@[i as int].1@));
            if !regex_compiles(self.rules[i].0.as_str()) {
                assert(!regex_ok(self@[i as int].0));
                assert(i < self@.len());
                return false;
            }
            i += 1;
        }
        true
    }

    /// Whether `regex` is a valid pattern for a filter.
    pub fn is_valid_regex(regex: &str) -> (r: bool)
        ensures
            r == regex_ok(regex@),
    {
        regex_compiles(regex)
    }

    /// Adds a regex with its replacement.
    pub fn add(&mut self, regex: &str, replacement: &str)
        requires
            regex_ok(regex@),
            old(self).wf(),
        ensures
            final(self)@ == old(self)@.push((regex@, replacement@)),
            final(self).wf(),
    {
        let ghost before = self@;
        let p = string_from(chars_of(regex).as_slice());
        let r = string_from(chars_of(replacement).as_slice());
        self.rules.push((p, r));
        assert(self@ =~= before.push((regex@, replacement@)));
    }

    /// Adds a regex with its replacement where the regex is valid, and says
    /// whether it was.
    pub fn try_add(&mut self, regex: &str, replacement: &str) -> (r: bool)
        requires
            old(self).wf(),
        ensures
            r == regex_ok(regex@),
            r ==> final(self)@ == old(self)@.push((regex@, replacement@)),
            !r ==> final(self)@ == old(self)@,
            final(self).wf(),
    {
        if Self::is_valid_regex(regex) {
            self.add(regex, replacement);
            true
        } else {
            false
        }
    }

    /// Filters from pairs of a regex and its replacement, in order, where
    /// every regex is valid.
    pub fn try_from_pairs(pairs: &[(&str, &str)]) -> (r: Option<Filters>)
        ensures
            match r {
                Some(f) => f@ == pairs@.map_values(|p: (&str, &str)| (p.0@, p.1@)) && f.wf(),
                None => exists|i: int| 0 <= i < pairs@.len() && !regex_ok(#[trigger] pairs@[i].0@),
            },
    {
        let mut i: usize = 0;
        while i < pairs.len()
            invariant
                i <= pairs@.len(),
                forall|j: int| 0 <= j < i ==> regex_ok(#[trigger] pairs@[j].0@),
            decreases pairs.len() - i,
        {
            if !Self::is_valid_regex(pairs[i].0) {
                assert(!regex_ok(pairs@[i as int].0@));
                return None;
            }
            i += 1;
        }
        Some(Self::from_pairs(pairs))
    }

    /// Filters from pairs of a regex and its replacement, in order.
    pub fn from_pairs(pairs: &[(&str, &str)]) -> (r: Filters)
        requires
            forall|i: int| 0 <= i < pairs@.len() ==> regex_ok(#[trigger] pairs@[i].0@),
        ensures
            r@ == pairs@.map_values(|p: (&str, &str)| (p.0@, p.1@)),
            r.wf(),
    {
        let mut rv = Filters::new();
        let mut i: usize = 0;
        while i < pairs.len()
            invariant
                i <= pairs@.len(),
                forall|j: int| 0 <= j < pairs@.len() ==> regex_ok(#[trigger] pairs@[j].0@),
                rv@ == pairs@.take(i as int).map_values(|p: (&str, &str)| (p.0@, p.1@)),
                rv.wf(),
            decreases pairs.len() - i,
        {
            let (regex, replacement) = pairs[i];
            rv.add(regex, replacement);
            assert(pairs@.take(i + 1).map_values(|p: (&str, &str)| (p.0@, p.1@)) =~= pairs@.take(
                i as int,
            ).map_values(|p: (&str, &str)| (p.0@, p.1@)).push((regex@, replacement@)));
            i += 1;
        }
        assert(pairs@.take(pairs@.len() as int) =~= pairs@);
        rv
    }

    /// Clears all filters.
    pub fn clear(&mut self)
        ensures
            final(self)@ == Seq::<(Seq<char>, Seq<char>)>::empty(),
            final(self).wf(),
    {
        self.rules.clear();
        assert(self@ =~= Seq::<(Seq<char>, Seq<char>)>::empty());
    }

    /// Applies all filters to the given snapshot, in order.
    pub fn apply_to(&self, s: &str) -> (r: String)
        requires
            self.wf(),
        ensures
            r@ == filtered(self@, s@, self@.len() as int),
    {
        let mut rv = string_from(chars_of(s).as_slice());
        let mut i: usize = 0;
        while i < self.rules.len()
            invariant
                i <= self.rules@.len(),
                self.wf(),
                rv@ == filtered(self@, s@, i as int),
            decreases self.rules.len() - i,
        {
            let rule = &self.rules[i];
            assert(self@[i as int] == (rule.0@, rule.1@));
            assert(regex_ok(self@[i as int].0));
            rv = regex_replace_all(rule.0.as_str(), rv.as_str(), rule.1.as_str());
            i += 1;
        }
        rv
    }
}

/// The text without ANSI escape sequences, where it has an escape
/// character; otherwise the text as it is.
pub open spec fn without_ansi(s: Seq<char>) -> Seq<char> {
    if s.contains('\u{1b}') {
        ansi_stripped(s)
    } else {
        s
    }
}

/// Strips all ANSI escape sequences from the given string.
pub fn strip_ansi_escape_codes(s: &str) -> (r: String)
    ensures
        r@ == without_ansi(s@),
{
    let cs = chars_of(s);
    if contains_char(cs.as_slice(), '\u{1b}') {
        strip_ansi(s)
    } else {
        string_from(cs.as_slice())
    }
}

} // verus!
