//! The settings of snapshot assertions: where snapshots are stored, how
//! they are named and described, and which redactions and filters apply.
//! Binding settings to a thread is left to the caller.
use vstd::prelude::*;

use crate::content::{Content, ContentV};
use crate::filters::{Filters, filtered, regex_ok, strip_ansi_escape_codes, without_ansi};
use crate::redaction::{
    Redaction, RedactionV, SegmentV, Selector, parse_selector, redact_v, sorted_redaction,
};
use crate::text::{chars_of, string_from};

verus! {

broadcast use vstd::std_specs::vec::group_vec_axioms;

/// Configures how snapshot assertions operate.
#[derive(Debug, Clone)]
pub struct Settings {
    pub sort_maps: bool,
    pub snapshot_path: String,
    pub snapshot_suffix: String,
    pub input_file: Option<String>,
    pub description: Option<String>,
    pub info: Option<Content>,
    pub omit_expression: bool,
    pub prepend_module_to_snapshot: bool,
    pub redactions: Vec<(Selector, Redaction)>,
    pub filters: Filters,
    pub allow_empty_glob: bool,
    pub strip_ansi_escape_codes: bool,
}

fn own(s: &str) -> (r: String)
    ensures
        r@ == s@,
{
    string_from(chars_of(s).as_slice())
}

impl Settings {
    /// The default settings: snapshots in `snapshots`, named with their
    /// module, no suffix, description, info, redactions or filters.
    pub fn new() -> (r: Settings)
        ensures
            !r.sort_maps,
            r.snapshot_path@ == "snapshots"@,
            r.snapshot_suffix@.len() == 0,
            r.input_file is None,
            r.description is None,
            r.info is None,
            !r.omit_expression,
            r.prepend_module_to_snapshot,
            r.redactions@.len() == 0,
            r.filters@.len() == 0,
            r.filters.wf(),
            !r.allow_empty_glob,
            !r.strip_ansi_escape_codes,
    {
        Settings {
            sort_maps: false,
            snapshot_path: own("snapshots"),
            snapshot_suffix: String::new(),
            input_file: None,
            description: None,
            info: None,
            omit_expression: false,
            prepend_module_to_snapshot: true,
            redactions: Vec::new(),
            filters: Filters::new(),
            allow_empty_glob: false,
            strip_ansi_escape_codes: false,
        }
    }

    /// Enables forceful sorting of maps before serialization.
    pub fn set_sort_maps(&mut self, value: bool)
        ensures
            *final(self) == (Settings { sort_maps: value, ..*old(self) }),
    {
        self.sort_maps = value;
    }

    /// Returns the current value for map sorting.
    pub fn sort_maps(&self) -> (r: bool)
        ensures
            r == self.sort_maps,
    {
        self.sort_maps
    }

    /// Disables or enables prepending of the module name to the snapshot
    /// file name.
    pub fn set_prepend_module_to_snapshot(&mut self, value: bool)
        ensures
            *final(self) == (Settings { prepend_module_to_snapshot: value, ..*old(self) }),
    {
        self.prepend_module_to_snapshot = value;
    }

    /// Returns the current value for module name prepending.
    pub fn prepend_module_to_snapshot(&self) -> (r: bool)
        ensures
            r == self.prepend_module_to_snapshot,
    {
        self.prepend_module_to_snapshot
    }

    /// Allows the glob macro to match no files.
    pub fn set_allow_empty_glob(&mut self, value: bool)
        ensures
            *final(self) == (Settings { allow_empty_glob: value, ..*old(self) }),
    {
        self.allow_empty_glob = value;
    }

    /// Returns the current value for the empty glob setting.
    pub fn allow_empty_glob(&self) -> (r: bool)
        ensures
            r == self.allow_empty_glob,
    {
        self.allow_empty_glob
    }

    /// Strips ANSI escape codes from snapshots before they are compared.
    pub fn set_strip_ansi_escape_codes(&mut self, value: bool)
        ensures
            *final(self) == (Settings { strip_ansi_escape_codes: value, ..*old(self) }),
    {
        self.strip_ansi_escape_codes = value;
    }

    /// Sets the snapshot suffix, appended to snapshot names after `@`.
    pub fn set_snapshot_suffix(&mut self, suffix: &str)
        ensures
            final(self).snapshot_suffix@ == suffix@,
            *final(self) == (Settings { snapshot_suffix: final(self).snapshot_suffix, ..*old(self) }),
    {
        self.snapshot_suffix = own(suffix);
    }

    /// Removes the snapshot suffix.
    pub fn remove_snapshot_suffix(&mut self)
        ensures
            final(self).snapshot_suffix@.len() == 0,
            *final(self) == (Settings { snapshot_suffix: final(self).snapshot_suffix, ..*old(self) }),
    {
        self.snapshot_suffix = String::new();
    }

    /// Returns the current snapshot suffix, where there is one.
    pub fn snapshot_suffix(&self) -> (r: Option<&str>)
        ensures
            match r {
                Some(s) => self.snapshot_suffix@.len() > 0 && s@ == self.snapshot_suffix@,
                None => self.snapshot_suffix@.len() == 0,
            },
    {
        if self.snapshot_suffix.as_str().unicode_len() == 0 {
            None
        } else {
            Some(self.snapshot_suffix.as_str())
        }
    }

    /// Sets the input file reference.
    pub fn set_input_file(&mut self, p: &str)
        ensures
            final(self).input_file is Some,
            final(self).input_file.unwrap()@ == p@,
            *final(self) == (Settings { input_file: final(self).input_file, ..*old(self) }),
    {
        self.input_file = Some(own(p));
    }

    /// Removes the input file reference.
    pub fn remove_input_file(&mut self)
        ensures
            *final(self) == (Settings { input_file: None, ..*old(self) }),
    {
        self.input_file = None;
    }

    /// Returns the current input file reference.
    pub fn input_file(&self) -> (r: Option<&str>)
        ensures
            match r {
                Some(s) => self.input_file is Some && s@ == self.input_file.unwrap()@,
                None => self.input_file is None,
            },
    {
        match &self.input_file {
            Some(p) => Some(p.as_str()),
            None => None,
        }
    }

    /// Sets the description.
    pub fn set_description(&mut self, value: &str)
        ensures
            final(self).description is Some,
            final(self).description.unwrap()@ == value@,
            *final(self) == (Settings { description: final(self).description, ..*old(self) }),
    {
        self.description = Some(own(value));
    }

    /// Removes the description.
    pub fn remove_description(&mut self)
        ensures
            *final(self) == (Settings { description: None, ..*old(self) }),
    {
        self.description = None;
    }

    /// Returns the current description.
    pub fn description(&self) -> (r: Option<&str>)
        ensures
            match r {
                Some(s) => self.description is Some && s@ == self.description.unwrap()@,
                None => self.description is None,
            },
    {
        match &self.description {
            Some(d) => Some(d.as_str()),
            None => None,
        }
    }

    /// Sets the info, a value stored with the snapshot.
    pub fn set_info(&mut self, value: &Content)
        ensures
            final(self).info is Some,
            final(self).info.unwrap()@ == value@,
            *final(self) == (Settings { info: final(self).info, ..*old(self) }),
    {
        self.info = Some(value.clone());
    }

    /// Removes the info.
    pub fn remove_info(&mut self)
        ensures
            *final(self) == (Settings { info: None, ..*old(self) }),
    {
        self.info = None;
    }

    /// Returns whether there is info.
    pub fn has_info(&self) -> (r: bool)
        ensures
            r == self.info is Some,
    {
        self.info.is_some()
    }

    /// Omits the expression from snapshots.
    pub fn set_omit_expression(&mut self, value: bool)
        ensures
            *final(self) == (Settings { omit_expression: value, ..*old(self) }),
    {
        self.omit_expression = value;
    }

    /// Returns whether the expression is omitted.
    pub fn omit_expression(&self) -> (r: bool)
        ensures
            r == self.omit_expression,
    {
        self.omit_expression
    }

    /// Registers a redaction: values at the selector are replaced by
    /// `replacement`.
    pub fn add_redaction(&mut self, selector: &str, replacement: Redaction)
        requires
            parse_selector(selector@) is Some,
            selector@.len() + 4 <= usize::MAX,
        ensures
            final(self).redactions@.len() == old(self).redactions@.len() + 1,
            final(self).redactions@.last().0@ == parse_selector(selector@).unwrap(),
            final(self).redactions@.last().1@ == replacement@,
            forall|i: int|
                0 <= i < old(self).redactions@.len() ==> #[trigger] final(self).redactions@[i]
                    == old(self).redactions@[i],
            *final(self) == (Settings { redactions: final(self).redactions, ..*old(self) }),
    {
        match Selector::parse(selector) {
            Ok(sel) => {
                self.redactions.push((sel.make_static(), replacement));
            },
            Err(_) => {},
        }
    }

    /// Registers a redaction where the selector parses, and says whether it
    /// did.
    pub fn try_add_redaction(&mut self, selector: &str, replacement: Redaction) -> (r: bool)
        requires
            selector@.len() + 4 <= usize::MAX,
        ensures
            r == parse_selector(selector@) is Some,
            r ==> redaction_views(final(self).redactions@) == redaction_views(
                old(self).redactions@,
            ).push((parse_selector(selector@).unwrap(), replacement@)),
            r ==> *final(self) == (Settings { redactions: final(self).redactions, ..*old(self) }),
            !r ==> *final(self) == *old(self),
    {
        if Selector::parse(selector).is_ok() {
            let ghost before = self.redactions@;
            self.add_redaction(selector, replacement);
            assert(redaction_views(self.redactions@) =~= redaction_views(before).push(
                (parse_selector(selector@).unwrap(), replacement@),
            ));
            true
        } else {
            false
        }
    }

    /// Sorts the sequence, map or struct at the selector: a shortcut for
    /// adding the sorting redaction there.
    pub fn sort_selector(&mut self, selector: &str)
        requires
            parse_selector(selector@) is Some,
            selector@.len() + 4 <= usize::MAX,
        ensures
            redaction_views(final(self).redactions@) == redaction_views(old(self).redactions@).push(
                (parse_selector(selector@).unwrap(), RedactionV::Sorted),
            ),
            *final(self) == (Settings { redactions: final(self).redactions, ..*old(self) }),
    {
        let ghost before = self.redactions@;
        self.add_redaction(selector, sorted_redaction());
        assert(redaction_views(self.redactions@) =~= redaction_views(before).push(
            (parse_selector(selector@).unwrap(), RedactionV::Sorted),
        ));
    }

    /// Replaces the redactions with the given ones, in order.
    pub fn set_redactions(&mut self, redactions: Vec<(&str, Redaction)>)
        requires
            forall|i: int|
                0 <= i < redactions@.len() ==> parse_selector(#[trigger] redactions@[i].0@) is Some
                    && redactions@[i].0@.len() + 4 <= usize::MAX,
        ensures
            redaction_views(final(self).redactions@) == Seq::new(
                redactions@.len(),
                |i: int| (parse_selector(redactions@[i].0@).unwrap(), redactions@[i].1@),
            ),
            *final(self) == (Settings { redactions: final(self).redactions, ..*old(self) }),
    {
        let ghost orig = redactions@;
        let ghost start = *self;
        self.redactions.clear();
        let mut rest = redactions;
        let ghost mut i: int = 0;
        while rest.len() > 0
            invariant
                0 <= i <= orig.len(),
                rest@ == orig.skip(i),
                forall|k: int|
                    0 <= k < orig.len() ==> parse_selector(#[trigger] orig[k].0@) is Some
                        && orig[k].0@.len() + 4 <= usize::MAX,
                redaction_views(self.redactions@) == Seq::new(
                    i as nat,
                    |k: int| (parse_selector(orig[k].0@).unwrap(), orig[k].1@),
                ),
                *self == (Settings { redactions: self.redactions, ..start }),
            decreases rest.len(),
        {
            let (sel, red) = rest.remove(0);
            proof {
                assert(sel == orig[i].0 && red == orig[i].1);
            }
            let ghost before = self.redactions@;
            assert(redaction_views(before).len() == before.len());
            assert(before.len() == i);
            self.add_redaction(sel, red);
            proof {
                let want = Seq::new(
                    (i + 1) as nat,
                    |k: int| (parse_selector(orig[k].0@).unwrap(), orig[k].1@),
                );
                assert forall|k: int| 0 <= k < i + 1 implies #[trigger] redaction_views(
                    self.redactions@,
                )[k] == want[k] by {
                    if k < i {
                        assert(self.redactions@[k] == before[k]);
                        assert(redaction_views(before)[k] == want[k]);
                    }
                }
                assert(redaction_views(self.redactions@) =~= Seq::new(
                    (i + 1) as nat,
                    |k: int| (parse_selector(orig[k].0@).unwrap(), orig[k].1@),
                ));
                i = i + 1;
                assert(rest@ =~= orig.skip(i));
            }
        }
    }

    /// Removes all redactions.
    pub fn clear_redactions(&mut self)
        ensures
            final(self).redactions@.len() == 0,
            *final(self) == (Settings { redactions: final(self).redactions, ..*old(self) }),
    {
        self.redactions.clear();
    }

    /// Registers a filter: matches of the regex are replaced.
    pub fn add_filter(&mut self, regex: &str, replacement: &str)
        requires
            regex_ok(regex@),
            old(self).filters.wf(),
        ensures
            final(self).filters@ == old(self).filters@.push((regex@, replacement@)),
            final(self).filters.wf(),
            *final(self) == (Settings { filters: final(self).filters, ..*old(self) }),
    {
        self.filters.add(regex, replacement);
    }

    /// Registers a filter where the regex is valid, and says whether it
    /// was.
    pub fn try_add_filter(&mut self, regex: &str, replacement: &str) -> (r: bool)
        requires
            old(self).filters.wf(),
        ensures
            r == regex_ok(regex@),
            r ==> final(self).filters@ == old(self).filters@.push((regex@, replacement@)),
            !r ==> final(self).filters@ == old(self).filters@,
            final(self).filters.wf(),
            *final(self) == (Settings { filters: final(self).filters, ..*old(self) }),
    {
        if Filters::is_valid_regex(regex) {
            self.add_filter(regex, replacement);
            true
        } else {
            false
        }
    }

    /// Replaces the filters.
    pub fn set_filters(&mut self, filters: Filters)
        ensures
            *final(self) == (Settings { filters, ..*old(self) }),
    {
        self.filters = filters;
    }

    /// Removes all filters.
    pub fn clear_filters(&mut self)
        ensures
            final(self).filters@.len() == 0,
            final(self).filters.wf(),
            *final(self) == (Settings { filters: final(self).filters, ..*old(self) }),
    {
        self.filters.clear();
    }

    /// The filters.
    pub fn filters(&self) -> (r: &Filters)
        ensures
            r == &self.filters,
    {
        &self.filters
    }

    /// The text a snapshot holds under these settings: ANSI escape codes
    /// stripped where the settings ask for it, then the filters applied in
    /// order.
    pub fn filter_snapshot_text(&self, content: &str) -> (r: String)
        requires
            self.filters.wf(),
        ensures
            r@ == filtered(
                self.filters@,
                if self.strip_ansi_escape_codes {
                    without_ansi(content@)
                } else {
                    content@
                },
                self.filters@.len() as int,
            ),
    {
        if self.strip_ansi_escape_codes {
            let stripped = strip_ansi_escape_codes(content);
            self.filters.apply_to(stripped.as_str())
        } else {
            self.filters.apply_to(content)
        }
    }

    /// Sets the snapshot path, relative to the directory of the source
    /// file.
    pub fn set_snapshot_path(&mut self, path: &str)
        ensures
            final(self).snapshot_path@ == path@,
            *final(self) == (Settings { snapshot_path: final(self).snapshot_path, ..*old(self) }),
    {
        self.snapshot_path = own(path);
    }

    /// Returns the snapshot path.
    pub fn snapshot_path(&self) -> (r: &str)
        ensures
            r@ == self.snapshot_path@,
    {
        self.snapshot_path.as_str()
    }
}

/// The redactions as selectors and replacement values.
pub open spec fn redaction_views(reds: Seq<(Selector, Redaction)>) -> Seq<
    (Seq<Seq<SegmentV>>, RedactionV),
> {
    Seq::new(reds.len(), |i: int| (reds[i].0@, reds[i].1@))
}

/// The value after applying the first `n` redactions in order, each to
/// the result of the ones before it.
pub open spec fn redacted_by(c: ContentV, reds: Seq<(Seq<Seq<SegmentV>>, RedactionV)>, n: nat) -> ContentV
    decreases n,
{
    if n == 0 || n > reds.len() {
        c
    } else {
        let r = reds[n - 1];
        redact_v(r.0, seq![], redacted_by(c, reds, (n - 1) as nat), r.1)
    }
}

impl Settings {
    /// The value with every registered redaction applied, in the order in
    /// which they were added.
    pub fn apply_redactions(&self, content: Content) -> (r: Content)
        ensures
            r@ == redacted_by(
                content@,
                redaction_views(self.redactions@),
                self.redactions@.len(),
            ),
    {
        let ghost rv = redaction_views(self.redactions@);
        let mut c = content;
        let mut i: usize = 0;
        while i < self.redactions.len()
            invariant
                rv == redaction_views(self.redactions@),
                i <= self.redactions@.len(),
                c@ == redacted_by(content@, rv, i as nat),
            decreases self.redactions.len() - i,
        {
            let pair = &self.redactions[i];
            c = pair.0.redact(c, &pair.1);
            i += 1;
        }
        c
    }
}

} // verus!
