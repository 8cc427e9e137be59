//! Inline snapshots waiting to be written back into their source file.
//!
//! Each pending record holds the run that produced it, the line of the
//! assertion and the new and old snapshots.  Records are appended to a
//! file one per line; when the file is read back only the records of the
//! last run are kept.
use vstd::prelude::*;

use crate::content::{
    Content, ContentV, Error, fields_as_entries, lemma_entry_views, lemma_fields_as_entries,
    struct_as_map,
};
use crate::env::str_eq;
use crate::snapfile::{
    FieldError, Snapshot, SnapshotV, error_is, field_named, field_of, find_bad_key, find_field,
    first_bad_key, lemma_field_of_prefix, lemma_fields_read, lemma_snapshot_reads_back,
    metadata_fields, opt_content, read_required_str, read_required_u32, required_str, required_u32,
    snapshot_fields, snapshot_read, snapshot_stored,
};
use crate::text::{chars_of, string_from};

verus! {

broadcast use vstd::std_specs::vec::group_vec_axioms;

/// An inline snapshot assertion whose result has not been written back.
#[derive(Debug)]
pub struct PendingInlineSnapshot {
    /// The test run the record belongs to.
    pub run_id: String,
    /// The line of the assertion.
    pub line: u32,
    /// The new snapshot, where there is one.
    pub new: Option<Snapshot>,
    /// The old snapshot, where there is one.
    pub old: Option<Snapshot>,
}

/// The value of a pending record.
pub struct PendingV {
    pub run_id: Seq<char>,
    pub line: u32,
    pub new: Option<SnapshotV>,
    pub old: Option<SnapshotV>,
}

/// The view of an optional snapshot.
pub open spec fn opt_snapshot(o: Option<Snapshot>) -> Option<SnapshotV> {
    match o {
        Some(s) => Some(s@),
        None => None,
    }
}

impl View for PendingInlineSnapshot {
    type V = PendingV;

    open spec fn view(&self) -> PendingV {
        PendingV {
            run_id: self.run_id@,
            line: self.line,
            new: opt_snapshot(self.new),
            old: opt_snapshot(self.old),
        }
    }
}

/// An optional snapshot read out of a field: missing or the nil value
/// is none, anything else must hold a snapshot.
pub open spec fn optional_snapshot_read(v: Option<ContentV>) -> Result<
    Option<SnapshotV>,
    FieldError,
> {
    match v {
        None => Ok(None),
        Some(ContentV::Nothing) => Ok(None),
        Some(c) => match snapshot_read(c) {
            Ok(s) => Ok(Some(s)),
            Err(f) => Err(f),
        },
    }
}

/// What reading a pending record out of a value gives: a map with string
/// keys holding the string `run_id`, the `u32` `line` and the optional
/// snapshots `new` and `old`; the first of these that fails decides the
/// error.
pub open spec fn pending_read(c: ContentV) -> Result<PendingV, FieldError> {
    match c {
        ContentV::Mapping(es) => match first_bad_key(es, 0) {
            Some(k) => Err(FieldError::InvalidStructField(es[k].0)),
            None => {
                let n = es.len() as int;
                match required_str(field_of(es, "run_id"@, n)) {
                    None => Err(FieldError::UnexpectedDataType),
                    Some(run_id) => match required_u32(field_of(es, "line"@, n)) {
                        None => Err(FieldError::UnexpectedDataType),
                        Some(line) => match optional_snapshot_read(field_of(es, "new"@, n)) {
                            Err(f) => Err(f),
                            Ok(new) => match optional_snapshot_read(field_of(es, "old"@, n)) {
                                Err(f) => Err(f),
                                Ok(old) => Ok(PendingV { run_id, line, new, old }),
                            },
                        },
                    },
                }
            },
        },
        _ => Err(FieldError::UnexpectedDataType),
    }
}

/// The stored value of an optional snapshot: its fields, or nil.
pub open spec fn snapshot_value(o: Option<Snapshot>) -> ContentV {
    match o {
        Some(s) => ContentV::Struct(
            "Content"@,
            snapshot_fields(s@, metadata_fields(s.stored_metadata())),
        ),
        None => ContentV::Nothing,
    }
}

/// The fields of a pending record as they are stored.
pub open spec fn pending_fields(p: PendingInlineSnapshot) -> Seq<(Seq<char>, ContentV)> {
    seq![
        ("run_id"@, ContentV::String(p.run_id@)),
        ("line"@, ContentV::U32(p.line)),
        ("new"@, snapshot_value(p.new)),
        ("old"@, snapshot_value(p.old)),
    ]
}

/// The records of `s` that belong to the run `id`, in their order.
pub open spec fn of_run(s: Seq<PendingInlineSnapshot>, id: Seq<char>) -> Seq<PendingInlineSnapshot>
    decreases s.len(),
{
    if s.len() == 0 {
        Seq::empty()
    } else if s.last().run_id@ == id {
        of_run(s.drop_last(), id).push(s.last())
    } else {
        of_run(s.drop_last(), id)
    }
}

/// What is kept of a batch of records: those of the run of its last
/// record.
pub open spec fn last_run(s: Seq<PendingInlineSnapshot>) -> Seq<PendingInlineSnapshot> {
    if s.len() == 0 {
        s
    } else {
        of_run(s, s.last().run_id@)
    }
}

/// Reads an optional snapshot out of a field.
fn read_optional_snapshot(v: Option<Content>) -> (r: Result<Option<Snapshot>, Error>)
    ensures
        match optional_snapshot_read(opt_content(v)) {
            Ok(o) => r matches Ok(s) && opt_snapshot(s) == o,
            Err(f) => r matches Err(e) && error_is(e, f),
        },
{
    match v {
        None => Ok(None),
        Some(Content::Nothing) => Ok(None),
        Some(c) => match Snapshot::from_content(c) {
            Ok(s) => Ok(Some(s)),
            Err(e) => Err(e),
        },
    }
}

/// The stored value of an optional snapshot.
fn snapshot_content(o: &Option<Snapshot>) -> (r: Content)
    ensures
        r@ == snapshot_value(*o),
{
    match o {
        Some(s) => s.as_content(),
        None => Content::Nothing,
    }
}

/// A copy of a string.
fn own(s: &str) -> (r: String)
    ensures
        r@ == s@,
{
    string_from(chars_of(s).as_slice())
}

impl PendingInlineSnapshot {
    /// A pending record of the run `run_id` for the assertion on `line`.
    pub fn new(new: Option<Snapshot>, old: Option<Snapshot>, line: u32, run_id: String) -> (r:
        PendingInlineSnapshot)
        ensures
            r.run_id == run_id,
            r.line == line,
            r.new == new,
            r.old == old,
    {
        PendingInlineSnapshot { run_id, line, new, old }
    }

    /// Reads a pending record from a map of fields: `run_id` must be a
    /// string, `line` a `u32`, and `new` and `old` nil or snapshots where
    /// present.
    pub fn from_content(content: Content) -> (r: Result<PendingInlineSnapshot, Error>)
        ensures
            match pending_read(content@) {
                Ok(v) => r matches Ok(p) && p@ == v,
                Err(f) => r matches Err(e) && error_is(e, f),
            },
    {
        match content {
            Content::Mapping(es) => {
                proof {
                    lemma_entry_views(es@);
                }
                match find_bad_key(&es) {
                    Some(k) => {
                        return Err(Error::InvalidStructField(es[k].0.clone()));
                    },
                    None => {},
                }
                let run_id = match read_required_str(find_field(&es, "run_id")) {
                    Ok(v) => v,
                    Err(e) => {
                        return Err(e);
                    },
                };
                let line = match read_required_u32(find_field(&es, "line")) {
                    Ok(v) => v,
                    Err(e) => {
                        return Err(e);
                    },
                };
                let new = match read_optional_snapshot(find_field(&es, "new")) {
                    Ok(v) => v,
                    Err(e) => {
                        return Err(e);
                    },
                };
                let old = match read_optional_snapshot(find_field(&es, "old")) {
                    Ok(v) => v,
                    Err(e) => {
                        return Err(e);
                    },
                };
                Ok(PendingInlineSnapshot { run_id, line, new, old })
            },
            _ => Err(Error::UnexpectedDataType),
        }
    }

    /// Keeps, of a batch of records read back in the order they were
    /// written, only those of the last run.
    pub fn retain_last_run(batch: Vec<PendingInlineSnapshot>) -> (r: Vec<PendingInlineSnapshot>)
        ensures
            r@ == last_run(batch@),
    {
        if batch.len() == 0 {
            return batch;
        }
        let last_id = own(batch[batch.len() - 1].run_id.as_str());
        let ghost orig = batch@;
        let ghost mut i: int = 0;
        let mut rest = batch;
        let mut kept: Vec<PendingInlineSnapshot> = Vec::new();
        while rest.len() > 0
            invariant
                0 <= i <= orig.len(),
                rest@ == orig.skip(i),
                kept@ == of_run(orig.take(i), last_id@),
            decreases rest.len(),
        {
            let p = rest.remove(0);
            proof {
                assert(p == orig[i]);
                assert(orig.take(i + 1).drop_last() =~= orig.take(i));
                assert(orig.take(i + 1).last() == orig[i]);
                i = i + 1;
                assert(rest@ =~= orig.skip(i));
            }
            if str_eq(p.run_id.as_str(), last_id.as_str()) {
                kept.push(p);
            }
        }
        proof {
            assert(orig.take(i) =~= orig);
        }
        kept
    }

    /// The record as a struct value: the run, the line, and the new and
    /// old snapshots or nil.
    pub fn as_content(&self) -> (r: Content)
        ensures
            r@ == ContentV::Struct("PendingInlineSnapshot"@, pending_fields(*self)),
    {
        let mut fields: Vec<(String, Content)> = Vec::new();
        fields.push((own("run_id"), Content::String(own(self.run_id.as_str()))));
        fields.push((own("line"), Content::U32(self.line)));
        fields.push((own("new"), snapshot_content(&self.new)));
        fields.push((own("old"), snapshot_content(&self.old)));
        let r = Content::Struct(own("PendingInlineSnapshot"), fields);
        proof {
            crate::content::lemma_field_views(fields@);
            assert(crate::content::field_views(fields@) =~= pending_fields(*self));
        }
        r
    }
}

// ---------------------------------------------------------------------
// A written record reads back
// ---------------------------------------------------------------------
/// The last field of a stored record with a given name.
proof fn lemma_pending_field(p: PendingInlineSnapshot, key: Seq<char>)
    ensures
        field_named(pending_fields(p), key) == if key == "old"@ {
            Some(snapshot_value(p.old))
        } else if key == "new"@ {
            Some(snapshot_value(p.new))
        } else if key == "line"@ {
            Some(ContentV::U32(p.line))
        } else if key == "run_id"@ {
            Some(ContentV::String(p.run_id@))
        } else {
            None
        },
{
    let fs = pending_fields(p);
    assert(fs.drop_last().drop_last().drop_last().drop_last() =~= Seq::<
        (Seq<char>, ContentV),
    >::empty());
    assert(field_named(fs.take(0), key) is None);
    assert(fs.take(0) =~= fs.drop_last().drop_last().drop_last().drop_last());
    assert(fs.take(1) =~= fs.drop_last().drop_last().drop_last());
    assert(fs.take(2) =~= fs.drop_last().drop_last());
    assert(fs.take(3) =~= fs.drop_last());
    assert(fs.take(1).drop_last() =~= fs.take(0));
    assert(fs.take(2).drop_last() =~= fs.take(1));
    assert(fs.take(3).drop_last() =~= fs.take(2));
    assert(fs.drop_last() =~= fs.take(3));
    assert(field_named(fs.take(1), key) == if key == "run_id"@ {
        Some(ContentV::String(p.run_id@))
    } else {
        None
    });
    assert(field_named(fs.take(2), key) == if key == "line"@ {
        Some(ContentV::U32(p.line))
    } else {
        field_named(fs.take(1), key)
    });
    assert(field_named(fs.take(3), key) == if key == "new"@ {
        Some(snapshot_value(p.new))
    } else {
        field_named(fs.take(2), key)
    });
}

/// The names under which a record is stored are distinct.
proof fn lemma_pending_names()
    ensures
        "run_id"@ != "line"@,
        "run_id"@ != "new"@,
        "run_id"@ != "old"@,
        "line"@ != "new"@,
        "line"@ != "old"@,
        "new"@ != "old"@,
{
    reveal_strlit("run_id");
    reveal_strlit("line");
    reveal_strlit("new");
    reveal_strlit("old");
    assert("run_id"@.len() != "line"@.len());
    assert("run_id"@.len() != "new"@.len());
    assert("run_id"@.len() != "old"@.len());
    assert("line"@.len() != "new"@.len());
    assert("line"@.len() != "old"@.len());
    assert("new"@[0] != "old"@[0]);
}

/// An optional snapshot written out reads back as itself.
proof fn lemma_snapshot_value_reads_back(o: Option<Snapshot>)
    ensures
        optional_snapshot_read(Some(struct_as_map(snapshot_value(o)))) == Ok::<
            Option<SnapshotV>,
            FieldError,
        >(opt_snapshot_stored(opt_snapshot(o))),
{
    match o {
        Some(s) => lemma_snapshot_reads_back(s),
        None => {},
    }
}

/// Optional snapshots as they read back once written out.
pub open spec fn opt_snapshot_stored(o: Option<SnapshotV>) -> Option<SnapshotV> {
    match o {
        Some(s) => Some(snapshot_stored(s)),
        None => None,
    }
}

/// A record as it reads back once written out: the same run and line,
/// with its snapshots read back.
pub open spec fn pending_stored(v: PendingV) -> PendingV {
    PendingV {
        run_id: v.run_id,
        line: v.line,
        new: opt_snapshot_stored(v.new),
        old: opt_snapshot_stored(v.old),
    }
}

/// A pending record written as a struct reads back, once each struct in it
/// is read as a map of its fields, as the same record.
pub proof fn lemma_pending_reads_back(p: PendingInlineSnapshot)
    ensures
        pending_read(struct_as_map(ContentV::Struct("PendingInlineSnapshot"@, pending_fields(p))))
            == Ok::<PendingV, FieldError>(pending_stored(p@)),
{
    let fs = pending_fields(p);
    let es = fields_as_entries(fs);
    let n = es.len() as int;
    lemma_fields_as_entries(fs);
    lemma_pending_names();
    lemma_pending_field(p, "run_id"@);
    lemma_pending_field(p, "line"@);
    lemma_pending_field(p, "new"@);
    lemma_pending_field(p, "old"@);
    lemma_snapshot_value_reads_back(p.new);
    lemma_snapshot_value_reads_back(p.old);
    assert(fs.take(fs.len() as int) =~= fs);
    lemma_fields_read(fs, "run_id"@, 0);
    lemma_field_of_prefix(fs, "run_id"@, n);
    lemma_field_of_prefix(fs, "line"@, n);
    lemma_field_of_prefix(fs, "new"@, n);
    lemma_field_of_prefix(fs, "old"@, n);
}

} // verus!
