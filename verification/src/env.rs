//! The tool configuration: how snapshots are checked, shown and updated,
//! decided from the `insta.yaml` config file and the `INSTA_*` environment
//! variables.  Reading the file and the variables is left to the caller;
//! this module decides from what was read.
use vstd::prelude::*;

use crate::content::{Content, ContentV, bool_of, resolve, str_of};
use crate::text::{chars_of, string_from};

verus! {

broadcast use vstd::std_specs::vec::group_vec_axioms;

// ---------------------------------------------------------------------
// Looking up config values
// ---------------------------------------------------------------------
/// The value of the first entry at or after `i` whose key is the string
/// `key`.
pub open spec fn find_entry_from(es: Seq<(ContentV, ContentV)>, key: Seq<char>, i: int) -> Option<
    ContentV,
>
    decreases es.len() - i,
{
    if i < 0 || i >= es.len() {
        None
    } else if str_of(es[i].0) == Some(key) {
        Some(es[i].1)
    } else {
        find_entry_from(es, key, i + 1)
    }
}

/// The value of the first field at or after `i` named `key`.
pub open spec fn find_field_from(fs: Seq<(Seq<char>, ContentV)>, key: Seq<char>, i: int) -> Option<
    ContentV,
>
    decreases fs.len() - i,
{
    if i < 0 || i >= fs.len() {
        None
    } else if fs[i].0 == key {
        Some(fs[i].1)
    } else {
        find_field_from(fs, key, i + 1)
    }
}

/// One step down a config value: the value under `key` of a map or
/// struct.
pub open spec fn step(node: ContentV, key: Seq<char>) -> Option<ContentV> {
    match resolve(node) {
        ContentV::Mapping(es) => find_entry_from(es, key, 0),
        ContentV::Struct(_, fs) => find_field_from(fs, key, 0),
        ContentV::StructVariant(_, _, _, fs) => find_field_from(fs, key, 0),
        _ => None,
    }
}

/// The value at a path of keys.
pub open spec fn resolve_path(v: ContentV, path: Seq<Seq<char>>) -> Option<ContentV>
    decreases path.len(),
{
    if path.len() == 0 {
        Some(v)
    } else {
        match step(v, path[0]) {
            Some(n) => resolve_path(n, path.drop_first()),
            None => None,
        }
    }
}

/// The boolean at `section.key` of the config.
pub open spec fn cfg_bool(cfg: ContentV, section: Seq<char>, key: Seq<char>) -> Option<bool> {
    match resolve_path(cfg, seq![section, key]) {
        Some(x) => bool_of(x),
        None => None,
    }
}

/// The string at `section.key` of the config.
pub open spec fn cfg_str(cfg: ContentV, section: Seq<char>, key: Seq<char>) -> Option<Seq<char>> {
    match resolve_path(cfg, seq![section, key]) {
        Some(x) => str_of(x),
        None => None,
    }
}

/// Whether two strings are equal.
pub fn str_eq(a: &str, b: &str) -> (r: bool)
    ensures
        r == (a@ == b@),
{
    let x = chars_of(a);
    let y = chars_of(b);
    if x.len() != y.len() {
        return false;
    }
    let mut i: usize = 0;
    while i < x.len()
        invariant
            x@ == a@,
            y@ == b@,
            x@.len() == y@.len(),
            i <= x@.len(),
            forall|j: int| 0 <= j < i ==> x@[j] == y@[j],
        decreases x.len() - i,
    {
        if x[i] != y[i] {
            return false;
        }
        i += 1;
    }
    assert(x@ =~= y@);
    true
}

fn find_step<'a>(node: &'a Content, key: &str) -> (r: Option<&'a Content>)
    ensures
        match r {
            Some(n) => step(node@, key@) == Some(n@),
            None => step(node@, key@) is None,
        },
{
    match node.resolve_inner() {
        Content::Mapping(fields) => {
            let ghost es = crate::content::entry_views(fields@);
            proof {
                crate::content::lemma_entry_views(fields@);
            }
            let mut i: usize = 0;
            while i < fields.len()
                invariant
                    i <= fields@.len(),
                    es == crate::content::entry_views(fields@),
                    es.len() == fields@.len(),
                    forall|j: int|
                        0 <= j < fields@.len() ==> #[trigger] es[j] == (
                            fields@[j].0@,
                            fields@[j].1@,
                        ),
                    find_entry_from(es, key@, 0) == find_entry_from(es, key@, i as int),
                    step(node@, key@) == find_entry_from(es, key@, 0),
                decreases fields.len() - i,
            {
                let entry = &fields[i];
                assert(es[i as int] == (fields@[i as int].0@, fields@[i as int].1@));
                let hit = match entry.0.as_str() {
                    Some(s) => str_eq(s, key),
                    None => false,
                };
                if hit {
                    assert(find_entry_from(es, key@, i as int) == Some(es[i as int].1));
                    return Some(&entry.1);
                }
                i += 1;
            }
            None
        },
        Content::Struct(_, fields) | Content::StructVariant(_, _, _, fields) => {
            let ghost fs = crate::content::field_views(fields@);
            proof {
                crate::content::lemma_field_views(fields@);
            }
            let mut i: usize = 0;
            while i < fields.len()
                invariant
                    i <= fields@.len(),
                    fs == crate::content::field_views(fields@),
                    fs.len() == fields@.len(),
                    forall|j: int|
                        0 <= j < fields@.len() ==> #[trigger] fs[j] == (
                            fields@[j].0@,
                            fields@[j].1@,
                        ),
                    find_field_from(fs, key@, 0) == find_field_from(fs, key@, i as int),
                    step(node@, key@) == find_field_from(fs, key@, 0),
                decreases fields.len() - i,
            {
                let field = &fields[i];
                assert(fs[i as int] == (fields@[i as int].0@, fields@[i as int].1@));
                if str_eq(field.0.as_str(), key) {
                    assert(find_field_from(fs, key@, i as int) == Some(fs[i as int].1));
                    return Some(&field.1);
                }
                i += 1;
            }
            None
        },
        _ => None,
    }
}

/// The value at a path of keys in a config value.
pub fn resolve_config<'a>(value: &'a Content, path: &[&str]) -> (r: Option<&'a Content>)
    ensures
        match r {
            Some(n) => resolve_path(value@, path@.map_values(|s: &str| s@)) == Some(n@),
            None => resolve_path(value@, path@.map_values(|s: &str| s@)) is None,
        },
{
    let ghost pv = path@.map_values(|s: &str| s@);
    let mut node = value;
    let mut i: usize = 0;
    assert(pv.skip(0) =~= pv);
    while i < path.len()
        invariant
            i <= path@.len(),
            pv == path@.map_values(|s: &str| s@),
            resolve_path(value@, pv) == resolve_path(node@, pv.skip(i as int)),
        decreases path.len() - i,
    {
        assert(pv.skip(i as int)[0] == path@[i as int]@);
        assert(pv.skip(i as int).drop_first() =~= pv.skip(i + 1));
        match find_step(node, path[i]) {
            Some(n) => {
                node = n;
            },
            None => {
                return None;
            },
        }
        i += 1;
    }
    assert(pv.skip(i as int).len() == 0);
    Some(node)
}

fn lookup_bool(cfg: &Content, section: &str, key: &str) -> (r: Option<bool>)
    ensures
        r == cfg_bool(cfg@, section@, key@),
{
    let path = [section, key];
    assert(path@.map_values(|s: &str| s@) =~= seq![section@, key@]);
    match resolve_config(cfg, &path) {
        Some(x) => x.as_bool(),
        None => None,
    }
}

fn lookup_str<'a>(cfg: &'a Content, section: &str, key: &str) -> (r: Option<&'a str>)
    ensures
        match r {
            Some(s) => cfg_str(cfg@, section@, key@) == Some(s@),
            None => cfg_str(cfg@, section@, key@) is None,
        },
{
    let path = [section, key];
    assert(path@.map_values(|s: &str| s@) =~= seq![section@, key@]);
    match resolve_config(cfg, &path) {
        Some(x) => x.as_str(),
        None => None,
    }
}

// ---------------------------------------------------------------------
// The settings
// ---------------------------------------------------------------------
/// The test runner to use.
#[derive(Clone, Copy, Debug, PartialEq, Eq, Structural)]
pub enum TestRunner {
    Auto,
    CargoTest,
    Nextest,
}

/// Controls how information is supposed to be displayed.
#[derive(Clone, Copy, Debug, PartialEq, Eq, Structural)]
pub enum OutputBehavior {
    /// Diff only
    Diff,
    /// Short summary
    Summary,
    /// The most minimal output
    Minimal,
    /// No output at all
    Nothing,
}

/// What to do with snapshots that no test refers to.
#[derive(Clone, Copy, Debug, PartialEq, Eq, Structural)]
pub enum UnreferencedSnapshots {
    Auto,
    Reject,
    Delete,
    Warn,
    Ignore,
}

/// When snapshots are updated.
#[derive(Clone, Copy, Debug, PartialEq, Eq, Structural)]
pub enum SnapshotUpdate {
    Always,
    Auto,
    Unseen,
    New,
    No,
    Force,
}

/// How snapshots are supposed to be updated.
#[derive(Clone, Copy, Debug, PartialEq, Eq, Structural)]
pub enum SnapshotUpdateBehavior {
    /// Snapshots are updated in-place
    InPlace,
    /// Snapshots are placed in a new file with a .new suffix
    NewFile,
    /// Snapshots are not updated at all.
    NoUpdate,
}

/// Why a tool configuration could not be built.
#[derive(Debug)]
pub enum Error {
    /// The config file could not be read.
    Deserialize(crate::content::Error),
    /// An environment variable has a value it cannot have.
    Env(&'static str),
    /// A config value has a value it cannot have.
    Config(&'static str),
}

/// The values of the `INSTA_*` environment variables that the tool
/// configuration reads; `None` where a variable is not set (or not valid
/// unicode).
#[derive(Debug)]
pub struct EnvVars {
    /// `INSTA_REQUIRE_FULL_MATCH`
    pub require_full_match: Option<String>,
    /// `INSTA_FORCE_PASS`
    pub force_pass: Option<String>,
    /// `INSTA_OUTPUT`
    pub output: Option<String>,
    /// `INSTA_UPDATE`
    pub update: Option<String>,
    /// `INSTA_GLOB_FAIL_FAST`
    pub glob_fail_fast: Option<String>,
    /// `INSTA_TEST_RUNNER`
    pub test_runner: Option<String>,
    /// `INSTA_TEST_RUNNER_FALLBACK`
    pub test_runner_fallback: Option<String>,
    /// `INSTA_FORCE_UPDATE` (deprecated)
    pub force_update: Option<String>,
    /// `INSTA_FORCE_UPDATE_SNAPSHOTS` (deprecated)
    pub force_update_snapshots: Option<String>,
}

/// Represents a tool configuration.
#[derive(Debug, Clone, Copy, PartialEq, Eq, Structural)]
pub struct ToolConfig {
    pub force_pass: bool,
    pub require_full_match: bool,
    pub output: OutputBehavior,
    pub snapshot_update: SnapshotUpdate,
    pub glob_fail_fast: bool,
    pub test_runner_fallback: bool,
    pub test_runner: TestRunner,
    pub test_unreferenced: UnreferencedSnapshots,
    pub auto_review: bool,
    pub auto_accept_unseen: bool,
    pub review_include_ignored: bool,
    pub review_include_hidden: bool,
    pub review_warn_undiscovered: bool,
}

/// The characters of an optional string.
pub open spec fn ov(o: Option<String>) -> Option<Seq<char>> {
    match o {
        Some(s) => Some(s@),
        None => None,
    }
}

/// Whether an environment variable is set to something other than the
/// empty string.
pub open spec fn is_set(v: Option<Seq<char>>) -> bool {
    v is Some && v.unwrap() != ""@
}

/// A flag from its variable (`0` or `1`), else from the config, else the
/// default; `None` where the variable has another value.
pub open spec fn flag(v: Option<Seq<char>>, cfg: Option<bool>, default: bool) -> Option<bool> {
    if !is_set(v) {
        Some(
            match cfg {
                Some(b) => b,
                None => default,
            },
        )
    } else if v.unwrap() == "0"@ {
        Some(false)
    } else if v.unwrap() == "1"@ {
        Some(true)
    } else {
        None
    }
}

/// The output behavior a name stands for.
pub open spec fn output_of(name: Seq<char>) -> Option<OutputBehavior> {
    if name == "diff"@ {
        Some(OutputBehavior::Diff)
    } else if name == "summary"@ {
        Some(OutputBehavior::Summary)
    } else if name == "minimal"@ {
        Some(OutputBehavior::Minimal)
    } else if name == "none"@ {
        Some(OutputBehavior::Nothing)
    } else {
        None
    }
}

/// The update setting a name stands for.
pub open spec fn update_of(name: Seq<char>) -> Option<SnapshotUpdate> {
    if name == "auto"@ {
        Some(SnapshotUpdate::Auto)
    } else if name == "always"@ || name == "1"@ {
        Some(SnapshotUpdate::Always)
    } else if name == "new"@ {
        Some(SnapshotUpdate::New)
    } else if name == "unseen"@ {
        Some(SnapshotUpdate::Unseen)
    } else if name == "no"@ {
        Some(SnapshotUpdate::No)
    } else if name == "force"@ {
        Some(SnapshotUpdate::Force)
    } else {
        None
    }
}

/// The test runner a name stands for.
pub open spec fn runner_of(name: Seq<char>) -> Option<TestRunner> {
    if name == "auto"@ {
        Some(TestRunner::Auto)
    } else if name == "cargo-test"@ {
        Some(TestRunner::CargoTest)
    } else if name == "nextest"@ {
        Some(TestRunner::Nextest)
    } else {
        None
    }
}

/// The handling of unreferenced snapshots a name stands for.
pub open spec fn unreferenced_of(name: Seq<char>) -> Option<UnreferencedSnapshots> {
    if name == "auto"@ {
        Some(UnreferencedSnapshots::Auto)
    } else if name == "reject"@ || name == "error"@ {
        Some(UnreferencedSnapshots::Reject)
    } else if name == "delete"@ {
        Some(UnreferencedSnapshots::Delete)
    } else if name == "warn"@ {
        Some(UnreferencedSnapshots::Warn)
    } else if name == "ignore"@ {
        Some(UnreferencedSnapshots::Ignore)
    } else {
        None
    }
}

/// Whether a deprecated force-update variable is set to `1`, which stands
/// for `INSTA_UPDATE=force`.
pub open spec fn legacy_force(env: EnvVars) -> bool {
    ov(env.force_update) == Some("1"@) || ov(env.force_update_snapshots) == Some("1"@)
}

/// The name of the output behavior: from `INSTA_OUTPUT`, else from
/// `behavior.output`, else `diff`.
pub open spec fn output_name(cfg: ContentV, env: EnvVars) -> Seq<char> {
    if is_set(ov(env.output)) {
        ov(env.output).unwrap()
    } else {
        match cfg_str(cfg, "behavior"@, "output"@) {
            Some(s) => s,
            None => "diff"@,
        }
    }
}

/// The name of the update setting: from `INSTA_UPDATE` (which a deprecated
/// force-update variable sets to `force`), else from `behavior.update`,
/// else `force` where `behavior.force_update` is true, else `auto`.
pub open spec fn update_name(cfg: ContentV, env: EnvVars) -> Seq<char> {
    let v = if legacy_force(env) {
        Some("force"@)
    } else {
        ov(env.update)
    };
    if is_set(v) {
        v.unwrap()
    } else {
        match cfg_str(cfg, "behavior"@, "update"@) {
            Some(s) => s,
            None => if cfg_bool(cfg, "behavior"@, "force_update"@) == Some(true) {
                "force"@
            } else {
                "auto"@
            },
        }
    }
}

/// The name of the test runner: from `INSTA_TEST_RUNNER`, else from
/// `test.runner`, else `auto`.
pub open spec fn runner_name(cfg: ContentV, env: EnvVars) -> Seq<char> {
    if is_set(ov(env.test_runner)) {
        ov(env.test_runner).unwrap()
    } else {
        match cfg_str(cfg, "test"@, "runner"@) {
            Some(s) => s,
            None => "auto"@,
        }
    }
}

/// The name of the handling of unreferenced snapshots: from
/// `test.unreferenced`, else `ignore`.
pub open spec fn unreferenced_name(cfg: ContentV) -> Seq<char> {
    match cfg_str(cfg, "test"@, "unreferenced"@) {
        Some(s) => s,
        None => "ignore"@,
    }
}

/// A boolean of the config, else the default.
pub open spec fn cfg_flag(cfg: ContentV, section: Seq<char>, key: Seq<char>, default: bool) -> bool {
    match cfg_bool(cfg, section, key) {
        Some(b) => b,
        None => default,
    }
}

/// The tool configuration that a config value and the environment
/// variables describe, or the first value (in the order of the fields)
/// that is invalid.
pub open spec fn config_spec(cfg: ContentV, env: EnvVars) -> Result<ToolConfig, Error> {
    let rfm = flag(
        ov(env.require_full_match),
        cfg_bool(cfg, "behavior"@, "require_full_match"@),
        false,
    );
    let fp = flag(ov(env.force_pass), cfg_bool(cfg, "behavior"@, "force_pass"@), false);
    let out = output_of(output_name(cfg, env));
    let upd = update_of(update_name(cfg, env));
    let gff = flag(ov(env.glob_fail_fast), cfg_bool(cfg, "behavior"@, "glob_fail_fast"@), false);
    let tr = runner_of(runner_name(cfg, env));
    let trf = flag(
        ov(env.test_runner_fallback),
        cfg_bool(cfg, "test"@, "test_runner_fallback"@),
        false,
    );
    let tu = unreferenced_of(unreferenced_name(cfg));
    if rfm is None {
        Err(Error::Env("INSTA_REQUIRE_FULL_MATCH"))
    } else if fp is None {
        Err(Error::Env("INSTA_FORCE_PASS"))
    } else if out is None {
        Err(Error::Env("INSTA_OUTPUT"))
    } else if upd is None {
        Err(Error::Env("INSTA_UPDATE"))
    } else if gff is None {
        Err(Error::Env("INSTA_GLOB_FAIL_FAST"))
    } else if tr is None {
        Err(Error::Env("INSTA_TEST_RUNNER"))
    } else if trf is None {
        Err(Error::Env("INSTA_RUNNER_FALLBACK"))
    } else if tu is None {
        Err(Error::Config("unreferenced"))
    } else {
        Ok(
            ToolConfig {
                require_full_match: rfm.unwrap(),
                force_pass: fp.unwrap(),
                output: out.unwrap(),
                snapshot_update: upd.unwrap(),
                glob_fail_fast: gff.unwrap(),
                test_runner: tr.unwrap(),
                test_runner_fallback: trf.unwrap(),
                test_unreferenced: tu.unwrap(),
                auto_review: cfg_flag(cfg, "test"@, "auto_review"@, false),
                auto_accept_unseen: cfg_flag(cfg, "test"@, "auto_accept_unseen"@, false),
                review_include_hidden: cfg_flag(cfg, "review"@, "include_hidden"@, false),
                review_include_ignored: cfg_flag(cfg, "review"@, "include_ignored"@, false),
                review_warn_undiscovered: cfg_flag(cfg, "review"@, "warn_undiscovered"@, true),
            },
        )
    }
}

fn env_set(v: &Option<String>) -> (r: bool)
    ensures
        r == is_set(ov(*v)),
{
    match v {
        Some(s) => !str_eq(s.as_str(), ""),
        None => false,
    }
}

fn env_flag(v: &Option<String>, cfg: Option<bool>, default: bool) -> (r: Option<bool>)
    ensures
        r == flag(ov(*v), cfg, default),
{
    if !env_set(v) {
        return Some(
            match cfg {
                Some(b) => b,
                None => default,
            },
        );
    }
    match v {
        Some(s) => if str_eq(s.as_str(), "0") {
            Some(false)
        } else if str_eq(s.as_str(), "1") {
            Some(true)
        } else {
            None
        },
        None => None,
    }
}

fn parse_output(name: &str) -> (r: Option<OutputBehavior>)
    ensures
        r == output_of(name@),
{
    if str_eq(name, "diff") {
        Some(OutputBehavior::Diff)
    } else if str_eq(name, "summary") {
        Some(OutputBehavior::Summary)
    } else if str_eq(name, "minimal") {
        Some(OutputBehavior::Minimal)
    } else if str_eq(name, "none") {
        Some(OutputBehavior::Nothing)
    } else {
        None
    }
}

fn parse_update(name: &str) -> (r: Option<SnapshotUpdate>)
    ensures
        r == update_of(name@),
{
    if str_eq(name, "auto") {
        Some(SnapshotUpdate::Auto)
    } else if str_eq(name, "always") || str_eq(name, "1") {
        Some(SnapshotUpdate::Always)
    } else if str_eq(name, "new") {
        Some(SnapshotUpdate::New)
    } else if str_eq(name, "unseen") {
        Some(SnapshotUpdate::Unseen)
    } else if str_eq(name, "no") {
        Some(SnapshotUpdate::No)
    } else if str_eq(name, "force") {
        Some(SnapshotUpdate::Force)
    } else {
        None
    }
}

impl TestRunner {
    /// The test runner a name stands for: `auto`, `cargo-test` or
    /// `nextest`.
    pub fn from_name(value: &str) -> (r: Result<TestRunner, ()>)
        ensures
            match r {
                Ok(t) => runner_of(value@) == Some(t),
                Err(_) => runner_of(value@) is None,
            },
    {
        if str_eq(value, "auto") {
            Ok(TestRunner::Auto)
        } else if str_eq(value, "cargo-test") {
            Ok(TestRunner::CargoTest)
        } else if str_eq(value, "nextest") {
            Ok(TestRunner::Nextest)
        } else {
            Err(())
        }
    }

    /// Falls back to `cargo test` (the automatic choice) where nextest was
    /// asked for, the fallback is on, and `nextest_missing` says that
    /// `cargo nextest` cannot be run.
    pub fn resolve_fallback(&self, test_runner_fallback: bool, nextest_missing: bool) -> (r:
        TestRunner)
        ensures
            r == if *self == TestRunner::Nextest && test_runner_fallback && nextest_missing {
                TestRunner::Auto
            } else {
                *self
            },
    {
        if *self == TestRunner::Nextest && test_runner_fallback && nextest_missing {
            TestRunner::Auto
        } else {
            *self
        }
    }
}

impl UnreferencedSnapshots {
    /// The handling a name stands for: `auto`, `reject` (or `error`),
    /// `delete`, `warn` or `ignore`.
    pub fn from_name(value: &str) -> (r: Result<UnreferencedSnapshots, ()>)
        ensures
            match r {
                Ok(t) => unreferenced_of(value@) == Some(t),
                Err(_) => unreferenced_of(value@) is None,
            },
    {
        if str_eq(value, "auto") {
            Ok(UnreferencedSnapshots::Auto)
        } else if str_eq(value, "reject") || str_eq(value, "error") {
            Ok(UnreferencedSnapshots::Reject)
        } else if str_eq(value, "delete") {
            Ok(UnreferencedSnapshots::Delete)
        } else if str_eq(value, "warn") {
            Ok(UnreferencedSnapshots::Warn)
        } else if str_eq(value, "ignore") {
            Ok(UnreferencedSnapshots::Ignore)
        } else {
            Err(())
        }
    }
}

/// Whether a deprecated force-update variable is set to `1`; the caller
/// then sets `INSTA_UPDATE` to `force`.
pub fn legacy_force_update(env: &EnvVars) -> (r: bool)
    ensures
        r == legacy_force(*env),
{
    let a = match &env.force_update {
        Some(s) => str_eq(s.as_str(), "1"),
        None => false,
    };
    let b = match &env.force_update_snapshots {
        Some(s) => str_eq(s.as_str(), "1"),
        None => false,
    };
    a || b
}

fn read_output(cfg: &Content, env: &EnvVars) -> (r: Option<OutputBehavior>)
    ensures
        r == output_of(output_name(cfg@, *env)),
{
    let val: &str = if env_set(&env.output) {
        match &env.output {
            Some(s) => s.as_str(),
            None => "diff",
        }
    } else {
        match lookup_str(cfg, "behavior", "output") {
            Some(s) => s,
            None => "diff",
        }
    };
    parse_output(val)
}

fn read_update(cfg: &Content, env: &EnvVars) -> (r: Option<SnapshotUpdate>)
    ensures
        r == update_of(update_name(cfg@, *env)),
{
    let legacy = legacy_force_update(env);
    let forced: Option<&str> = if legacy {
        Some("force")
    } else {
        match &env.update {
            Some(s) => Some(s.as_str()),
            None => None,
        }
    };
    let set = match forced {
        Some(s) => !str_eq(s, ""),
        None => false,
    };
    let val: &str = if set {
        match forced {
            Some(s) => s,
            None => "auto",
        }
    } else {
        match lookup_str(cfg, "behavior", "update") {
            Some(s) => s,
            None => match lookup_bool(cfg, "behavior", "force_update") {
                Some(true) => "force",
                _ => "auto",
            },
        }
    };
    parse_update(val)
}

fn read_runner(cfg: &Content, env: &EnvVars) -> (r: Result<TestRunner, ()>)
    ensures
        match r {
            Ok(t) => runner_of(runner_name(cfg@, *env)) == Some(t),
            Err(_) => runner_of(runner_name(cfg@, *env)) is None,
        },
{
    let val: &str = if env_set(&env.test_runner) {
        match &env.test_runner {
            Some(s) => s.as_str(),
            None => "auto",
        }
    } else {
        match lookup_str(cfg, "test", "runner") {
            Some(s) => s,
            None => "auto",
        }
    };
    TestRunner::from_name(val)
}

impl ToolConfig {
    /// Builds the tool configuration from a config value and the
    /// environment variables.
    pub fn from_config(cfg: &Content, env: &EnvVars) -> (r: Result<ToolConfig, Error>)
        ensures
            r == config_spec(cfg@, *env),
    {
        let require_full_match = match env_flag(
            &env.require_full_match,
            lookup_bool(cfg, "behavior", "require_full_match"),
            false,
        ) {
            Some(b) => b,
            None => return Err(Error::Env("INSTA_REQUIRE_FULL_MATCH")),
        };
        let force_pass = match env_flag(
            &env.force_pass,
            lookup_bool(cfg, "behavior", "force_pass"),
            false,
        ) {
            Some(b) => b,
            None => return Err(Error::Env("INSTA_FORCE_PASS")),
        };
        let output = match read_output(cfg, env) {
            Some(o) => o,
            None => return Err(Error::Env("INSTA_OUTPUT")),
        };
        let snapshot_update = match read_update(cfg, env) {
            Some(u) => u,
            None => return Err(Error::Env("INSTA_UPDATE")),
        };
        let glob_fail_fast = match env_flag(
            &env.glob_fail_fast,
            lookup_bool(cfg, "behavior", "glob_fail_fast"),
            false,
        ) {
            Some(b) => b,
            None => return Err(Error::Env("INSTA_GLOB_FAIL_FAST")),
        };
        let test_runner = match read_runner(cfg, env) {
            Ok(t) => t,
            Err(_) => return Err(Error::Env("INSTA_TEST_RUNNER")),
        };
        let test_runner_fallback = match env_flag(
            &env.test_runner_fallback,
            lookup_bool(cfg, "test", "test_runner_fallback"),
            false,
        ) {
            Some(b) => b,
            None => return Err(Error::Env("INSTA_RUNNER_FALLBACK")),
        };
        let test_unreferenced = {
            let val: &str = match lookup_str(cfg, "test", "unreferenced") {
                Some(s) => s,
                None => "ignore",
            };
            match UnreferencedSnapshots::from_name(val) {
                Ok(u) => u,
                Err(_) => return Err(Error::Config("unreferenced")),
            }
        };
        let auto_review = match lookup_bool(cfg, "test", "auto_review") {
            Some(b) => b,
            None => false,
        };
        let auto_accept_unseen = match lookup_bool(cfg, "test", "auto_accept_unseen") {
            Some(b) => b,
            None => false,
        };
        let review_include_hidden = match lookup_bool(cfg, "review", "include_hidden") {
            Some(b) => b,
            None => false,
        };
        let review_include_ignored = match lookup_bool(cfg, "review", "include_ignored") {
            Some(b) => b,
            None => false,
        };
        let review_warn_undiscovered = match lookup_bool(cfg, "review", "warn_undiscovered") {
            Some(b) => b,
            None => true,
        };
        Ok(
            ToolConfig {
                require_full_match,
                force_pass,
                output,
                snapshot_update,
                glob_fail_fast,
                test_runner,
                test_runner_fallback,
                test_unreferenced,
                auto_review,
                auto_accept_unseen,
                review_include_hidden,
                review_include_ignored,
                review_warn_undiscovered,
            },
        )
    }

    /// Builds the tool configuration from the config file of a workspace,
    /// as read: `None` where the workspace has none, the error where it
    /// could not be read.  Without a config file every value comes from
    /// the environment or is the default.
    pub fn from_workspace(
        loaded: Option<Result<Content, crate::content::Error>>,
        env: &EnvVars,
    ) -> (r: Result<ToolConfig, Error>)
        ensures
            match loaded {
                Some(Err(_)) => r is Err && r->Err_0 is Deserialize,
                Some(Ok(cfg)) => r == config_spec(cfg@, *env),
                None => r == config_spec(ContentV::Mapping(Seq::empty()), *env),
            },
    {
        match loaded {
            Some(Err(e)) => Err(Error::Deserialize(e)),
            Some(Ok(cfg)) => ToolConfig::from_config(&cfg, env),
            None => {
                let v: Vec<(Content, Content)> = Vec::new();
                assert(v@.len() == 0);
                assert(crate::content::entry_views(v@) =~= Seq::empty());
                let empty = Content::Mapping(v);
                assert(empty@ == ContentV::Mapping(Seq::empty()));
                ToolConfig::from_config(&empty, env)
            },
        }
    }

    /// Should we fail if metadata doesn't match?
    pub fn require_full_match(&self) -> (r: bool)
        ensures
            r == self.require_full_match,
    {
        self.require_full_match
    }

    /// Is insta instructed to fail in tests?
    pub fn force_pass(&self) -> (r: bool)
        ensures
            r == self.force_pass,
    {
        self.force_pass
    }

    /// Returns the intended output behavior for insta.
    pub fn output_behavior(&self) -> (r: OutputBehavior)
        ensures
            r == self.output,
    {
        self.output
    }

    /// Returns the intended snapshot update setting.
    pub fn snapshot_update(&self) -> (r: SnapshotUpdate)
        ensures
            r == self.snapshot_update,
    {
        self.snapshot_update
    }

    /// Is insta told to force update snapshots?
    pub fn force_update_snapshots(&self) -> (r: bool)
        ensures
            r == (self.snapshot_update == SnapshotUpdate::Force),
    {
        self.snapshot_update == SnapshotUpdate::Force
    }

    /// Returns whether the glob should fail fast, as snapshot failures
    /// within the glob macro will appear only at the end of execution
    /// unless `glob_fail_fast` is set.
    pub fn glob_fail_fast(&self) -> (r: bool)
        ensures
            r == self.glob_fail_fast,
    {
        self.glob_fail_fast
    }

    /// Returns the intended test runner.
    pub fn test_runner(&self) -> (r: TestRunner)
        ensures
            r == self.test_runner,
    {
        self.test_runner
    }

    /// Whether to fall back to `cargo test` if the test runner isn't
    /// available.
    pub fn test_runner_fallback(&self) -> (r: bool)
        ensures
            r == self.test_runner_fallback,
    {
        self.test_runner_fallback
    }

    /// What to do with unreferenced snapshots.
    pub fn test_unreferenced(&self) -> (r: UnreferencedSnapshots)
        ensures
            r == self.test_unreferenced,
    {
        self.test_unreferenced
    }

    /// Returns the auto review flag.
    pub fn auto_review(&self) -> (r: bool)
        ensures
            r == self.auto_review,
    {
        self.auto_review
    }

    /// Returns the auto accept unseen flag.
    pub fn auto_accept_unseen(&self) -> (r: bool)
        ensures
            r == self.auto_accept_unseen,
    {
        self.auto_accept_unseen
    }

    /// Whether review includes hidden files.
    pub fn review_include_hidden(&self) -> (r: bool)
        ensures
            r == self.review_include_hidden,
    {
        self.review_include_hidden
    }

    /// Whether review includes ignored files.
    pub fn review_include_ignored(&self) -> (r: bool)
        ensures
            r == self.review_include_ignored,
    {
        self.review_include_ignored
    }

    /// Whether review warns about snapshots it did not discover.
    pub fn review_warn_undiscovered(&self) -> (r: bool)
        ensures
            r == self.review_warn_undiscovered,
    {
        self.review_warn_undiscovered
    }

    /// Returns the intended snapshot update behavior; `ci` tells whether
    /// this runs in a CI environment.
    pub fn snapshot_update_behavior(&self, unseen: bool, ci: bool) -> (r: SnapshotUpdateBehavior)
        ensures
            r == update_behavior(self.snapshot_update, unseen, ci),
    {
        snapshot_update_behavior(self, unseen, ci)
    }
}

/// How snapshots are updated under an update setting.
pub open spec fn update_behavior(u: SnapshotUpdate, unseen: bool, ci: bool) -> SnapshotUpdateBehavior {
    match u {
        SnapshotUpdate::Always => SnapshotUpdateBehavior::InPlace,
        SnapshotUpdate::Auto => if ci {
            SnapshotUpdateBehavior::NoUpdate
        } else {
            SnapshotUpdateBehavior::NewFile
        },
        SnapshotUpdate::Unseen => if unseen {
            SnapshotUpdateBehavior::NewFile
        } else {
            SnapshotUpdateBehavior::InPlace
        },
        SnapshotUpdate::New => SnapshotUpdateBehavior::NewFile,
        SnapshotUpdate::No => SnapshotUpdateBehavior::NoUpdate,
        SnapshotUpdate::Force => SnapshotUpdateBehavior::InPlace,
    }
}

/// Returns the intended snapshot update behavior; `ci` tells whether this
/// runs in a CI environment.
pub fn snapshot_update_behavior(tool_config: &ToolConfig, unseen: bool, ci: bool) -> (r:
    SnapshotUpdateBehavior)
    ensures
        r == update_behavior(tool_config.snapshot_update, unseen, ci),
{
    match tool_config.snapshot_update() {
        SnapshotUpdate::Always => SnapshotUpdateBehavior::InPlace,
        SnapshotUpdate::Auto => {
            if ci {
                SnapshotUpdateBehavior::NoUpdate
            } else {
                SnapshotUpdateBehavior::NewFile
            }
        },
        SnapshotUpdate::Unseen => {
            if unseen {
                SnapshotUpdateBehavior::NewFile
            } else {
                SnapshotUpdateBehavior::InPlace
            }
        },
        SnapshotUpdate::New => SnapshotUpdateBehavior::NewFile,
        SnapshotUpdate::No => SnapshotUpdateBehavior::NoUpdate,
        SnapshotUpdate::Force => SnapshotUpdateBehavior::InPlace,
    }
}

/// Whether the `CI` and `TF_BUILD` variables say that this runs in a CI
/// environment: `CI` set to anything but `false`, `0` or the empty string,
/// or, where `CI` is not set, `TF_BUILD` set.
pub open spec fn ci_of(ci: Option<Seq<char>>, tf_build_set: bool) -> bool {
    match ci {
        Some(v) => !(v == "false"@ || v == "0"@ || v == ""@),
        None => tf_build_set,
    }
}

/// Are we running in a CI environment?
pub fn is_ci(ci: &Option<String>, tf_build_set: bool) -> (r: bool)
    ensures
        r == ci_of(ov(*ci), tf_build_set),
{
    match ci {
        Some(v) => !(str_eq(v.as_str(), "false") || str_eq(v.as_str(), "0") || str_eq(
            v.as_str(),
            "",
        )),
        None => tf_build_set,
    }
}

// ---------------------------------------------------------------------
// Remembered configurations
// ---------------------------------------------------------------------
/// The configuration remembered for a workspace: the first entry for it.
pub open spec fn lookup(entries: Seq<(Seq<char>, ToolConfig)>, dir: Seq<char>) -> Option<ToolConfig>
    decreases entries.len(),
{
    if entries.len() == 0 {
        None
    } else if entries[0].0 == dir {
        Some(entries[0].1)
    } else {
        lookup(entries.drop_first(), dir)
    }
}

/// The tool configurations built so far, one for each workspace.
pub struct ToolConfigs {
    entries: Vec<(String, ToolConfig)>,
}

impl View for ToolConfigs {
    type V = Seq<(Seq<char>, ToolConfig)>;

    closed spec fn view(&self) -> Seq<(Seq<char>, ToolConfig)> {
        self.entries@.map_values(|e: (String, ToolConfig)| (e.0@, e.1))
    }
}

/// Looking up after adding an entry at the end finds an earlier entry for
/// the workspace, else the new one.
proof fn lemma_lookup_push(entries: Seq<(Seq<char>, ToolConfig)>, e: (Seq<char>, ToolConfig), dir: Seq<char>)
    ensures
        lookup(entries.push(e), dir) == if lookup(entries, dir) is Some {
            lookup(entries, dir)
        } else if e.0 == dir {
            Some(e.1)
        } else {
            None
        },
    decreases entries.len(),
{
    let p = entries.push(e);
    if entries.len() > 0 {
        assert(p[0] == entries[0]);
        assert(p.drop_first() =~= entries.drop_first().push(e));
        lemma_lookup_push(entries.drop_first(), e, dir);
        if entries[0].0 == dir {
            assert(lookup(p, dir) == Some(entries[0].1));
        } else {
            assert(lookup(p, dir) == lookup(p.drop_first(), dir));
            assert(lookup(entries, dir) == lookup(entries.drop_first(), dir));
        }
    } else {
        assert(p[0] == e);
        assert(p.len() == 1);
        assert(lookup(entries, dir) is None);
        assert(entries.push(e).drop_first() =~= Seq::<(Seq<char>, ToolConfig)>::empty());
    }
}

impl ToolConfigs {
    /// No configurations yet.
    pub fn new() -> (r: ToolConfigs)
        ensures
            r@ == Seq::<(Seq<char>, ToolConfig)>::empty(),
    {
        let r = ToolConfigs { entries: Vec::new() };
        assert(r@ =~= Seq::<(Seq<char>, ToolConfig)>::empty());
        r
    }

    /// The configuration remembered for a workspace.
    pub fn get(&self, workspace_dir: &str) -> (r: Option<ToolConfig>)
        ensures
            r == lookup(self@, workspace_dir@),
    {
        let ghost all = self@;
        let mut i: usize = 0;
        assert(all.skip(0) =~= all);
        while i < self.entries.len()
            invariant
                i <= self.entries@.len(),
                all == self@,
                all.len() == self.entries@.len(),
                lookup(all, workspace_dir@) == lookup(all.skip(i as int), workspace_dir@),
            decreases self.entries.len() - i,
        {
            let e = &self.entries[i];
            assert(all.skip(i as int)[0] == (e.0@, e.1));
            assert(all.skip(i as int).drop_first() =~= all.skip(i + 1));
            if str_eq(e.0.as_str(), workspace_dir) {
                return Some(e.1);
            }
            i += 1;
        }
        assert(all.skip(i as int) =~= Seq::<(Seq<char>, ToolConfig)>::empty());
        None
    }

    /// Remembers `config` for a workspace that has none yet, and returns
    /// the configuration remembered for it.
    pub fn remember(&mut self, workspace_dir: &str, config: ToolConfig) -> (r: ToolConfig)
        ensures
            r == match lookup(old(self)@, workspace_dir@) {
                Some(c) => c,
                None => config,
            },
            lookup(final(self)@, workspace_dir@) == Some(r),
            forall|d: Seq<char>|
                d != workspace_dir@ ==> lookup(#[trigger] final(self)@, d) == lookup(old(self)@, d),
    {
        match self.get(workspace_dir) {
            Some(c) => c,
            None => {
                let ghost before = self@;
                let dir = String::from_str(workspace_dir);
                self.entries.push((dir, config));
                assert(self@ =~= before.push((workspace_dir@, config)));
                proof {
                    lemma_lookup_push(before, (workspace_dir@, config), workspace_dir@);
                    assert forall|d: Seq<char>| d != workspace_dir@ implies lookup(self@, d) == lookup(before, d) by {
                        lemma_lookup_push(before, (workspace_dir@, config), d);
                    }
                }
                config
            },
        }
    }
}

/// The configuration of a workspace: the one remembered for it, or, where
/// none is, `loaded`, which is then remembered.
pub fn get_tool_config(configs: &mut ToolConfigs, workspace_dir: &str, loaded: ToolConfig) -> (r:
    ToolConfig)
    ensures
        r == match lookup(old(configs)@, workspace_dir@) {
            Some(c) => c,
            None => loaded,
        },
        lookup(final(configs)@, workspace_dir@) == Some(r),
{
    configs.remember(workspace_dir, loaded)
}

/// Where the cargo workspace of a crate is found.
#[derive(Debug, Clone, Copy)]
pub enum Workspace {
    /// Ask cargo for the workspace of the crate whose manifest is in this
    /// directory.
    DetectWithCargo(&'static str),
    /// The workspace root itself.
    UseAsIs(&'static str),
}

/// The workspace root where it is known without asking cargo: the root
/// given at run time, else the root given as is; `None` where cargo has to
/// be asked about the manifest directory.
pub fn known_workspace_root(runtime_root: Option<&str>, workspace: Workspace) -> (r: Option<String>)
    ensures
        runtime_root matches Some(root) ==> r matches Some(s) && s@ == root@,
        runtime_root is None ==> match workspace {
            Workspace::UseAsIs(root) => r matches Some(s) && s@ == root@,
            Workspace::DetectWithCargo(_) => r is None,
        },
{
    match runtime_root {
        Some(root) => Some(string_from(chars_of(root).as_slice())),
        None => match workspace {
            Workspace::UseAsIs(root) => Some(string_from(chars_of(root).as_slice())),
            Workspace::DetectWithCargo(_) => None,
        },
    }
}

/// Each documented update name stands for the update mode of that name:
/// `always` and `1` for `Always`, `auto` for `Auto`, `unseen` for
/// `Unseen`, `new` for `New`, `no` for `No` and `force` for `Force`.
pub proof fn lemma_update_names()
    ensures
        update_of("always"@) == Some(SnapshotUpdate::Always),
        update_of("1"@) == Some(SnapshotUpdate::Always),
        update_of("auto"@) == Some(SnapshotUpdate::Auto),
        update_of("unseen"@) == Some(SnapshotUpdate::Unseen),
        update_of("new"@) == Some(SnapshotUpdate::New),
        update_of("no"@) == Some(SnapshotUpdate::No),
        update_of("force"@) == Some(SnapshotUpdate::Force),
{
    reveal_strlit("always");
    reveal_strlit("1");
    reveal_strlit("auto");
    reveal_strlit("unseen");
    reveal_strlit("new");
    reveal_strlit("no");
    reveal_strlit("force");
    lemma_update_literals();
}

proof fn lemma_update_literals()
    ensures
        ""@.len() == 0,
        "auto"@.len() == 4,
        "always"@.len() == 6 && "always"@[0] == 'a',
        "1"@.len() == 1,
        "new"@.len() == 3,
        "unseen"@.len() == 6 && "unseen"@[0] == 'u',
        "no"@.len() == 2,
        "force"@.len() == 5,
{
    reveal_strlit("");
    reveal_strlit("always");
    reveal_strlit("1");
    reveal_strlit("auto");
    reveal_strlit("unseen");
    reveal_strlit("new");
    reveal_strlit("no");
    reveal_strlit("force");
}

/// `INSTA_UPDATE` decides how snapshots are updated, whatever the config
/// file says (unless a deprecated force-update variable forces updates):
/// `always` or `1` writes a failing snapshot in place, `new` into a new
/// file, `no` nowhere, `force` always in place, and `auto` into a new
/// file but not in CI.
pub proof fn lemma_env_update_decides(cfg: ContentV, env: EnvVars, unseen: bool, ci: bool)
    requires
        !legacy_force(env),
        config_spec(cfg, env) is Ok,
    ensures
        ({
            let c = config_spec(cfg, env)->Ok_0;
            &&& (ov(env.update) == Some("always"@) || ov(env.update) == Some("1"@)) ==> c.snapshot_update
                == SnapshotUpdate::Always && update_behavior(c.snapshot_update, unseen, ci)
                == SnapshotUpdateBehavior::InPlace
            &&& ov(env.update) == Some("new"@) ==> c.snapshot_update == SnapshotUpdate::New
                && update_behavior(c.snapshot_update, unseen, ci) == SnapshotUpdateBehavior::NewFile
            &&& ov(env.update) == Some("no"@) ==> c.snapshot_update == SnapshotUpdate::No
                && update_behavior(c.snapshot_update, unseen, ci) == SnapshotUpdateBehavior::NoUpdate
            &&& ov(env.update) == Some("force"@) ==> c.snapshot_update == SnapshotUpdate::Force
                && update_behavior(c.snapshot_update, unseen, ci) == SnapshotUpdateBehavior::InPlace
            &&& ov(env.update) == Some("unseen"@) ==> c.snapshot_update == SnapshotUpdate::Unseen
            &&& ov(env.update) == Some("auto"@) ==> c.snapshot_update == SnapshotUpdate::Auto
                && update_behavior(c.snapshot_update, unseen, ci) == (if ci {
                SnapshotUpdateBehavior::NoUpdate
            } else {
                SnapshotUpdateBehavior::NewFile
            })
        }),
{
    lemma_update_names();
    lemma_update_literals();
    reveal_strlit("");
    reveal_strlit("always");
    reveal_strlit("1");
    reveal_strlit("auto");
    reveal_strlit("unseen");
    reveal_strlit("new");
    reveal_strlit("no");
    reveal_strlit("force");
}

/// A deprecated force-update variable set to `1` forces updates.
pub proof fn lemma_legacy_force_forces(cfg: ContentV, env: EnvVars)
    requires
        legacy_force(env),
        config_spec(cfg, env) is Ok,
    ensures
        config_spec(cfg, env)->Ok_0.snapshot_update == SnapshotUpdate::Force,
{
    lemma_update_names();
    lemma_update_literals();
    reveal_strlit("");
    reveal_strlit("force");
}

/// Each documented output name stands for the output behavior of that
/// name, each test runner name for that runner, and each name of the
/// handling of unreferenced snapshots for that handling.
pub proof fn lemma_setting_names()
    ensures
        output_of("diff"@) == Some(OutputBehavior::Diff),
        output_of("summary"@) == Some(OutputBehavior::Summary),
        output_of("minimal"@) == Some(OutputBehavior::Minimal),
        output_of("none"@) == Some(OutputBehavior::Nothing),
        runner_of("auto"@) == Some(TestRunner::Auto),
        runner_of("cargo-test"@) == Some(TestRunner::CargoTest),
        runner_of("nextest"@) == Some(TestRunner::Nextest),
        unreferenced_of("auto"@) == Some(UnreferencedSnapshots::Auto),
        unreferenced_of("reject"@) == Some(UnreferencedSnapshots::Reject),
        unreferenced_of("error"@) == Some(UnreferencedSnapshots::Reject),
        unreferenced_of("delete"@) == Some(UnreferencedSnapshots::Delete),
        unreferenced_of("warn"@) == Some(UnreferencedSnapshots::Warn),
        unreferenced_of("ignore"@) == Some(UnreferencedSnapshots::Ignore),
{
    reveal_strlit("diff");
    reveal_strlit("summary");
    reveal_strlit("minimal");
    reveal_strlit("none");
    reveal_strlit("auto");
    reveal_strlit("cargo-test");
    reveal_strlit("nextest");
    reveal_strlit("reject");
    reveal_strlit("error");
    reveal_strlit("delete");
    reveal_strlit("warn");
    reveal_strlit("ignore");
    assert("diff"@.len() == 4 && "none"@.len() == 4 && "diff"@[0] == 'd' && "none"@[0] == 'n');
    assert("summary"@.len() == 7 && "minimal"@.len() == 7 && "summary"@[0] == 's' && "minimal"@[0] == 'm');
    assert("auto"@.len() == 4 && "cargo-test"@.len() == 10 && "nextest"@.len() == 7);
    assert("reject"@.len() == 6 && "delete"@.len() == 6 && "reject"@[0] == 'r' && "delete"@[0] == 'd');
    assert("error"@.len() == 5 && "warn"@.len() == 4 && "warn"@[0] == 'w' && "ignore"@.len() == 6);
    assert("ignore"@[0] == 'i');
}

/// A flag variable `1` turns the flag on and `0` off, whatever the config
/// says; unset or empty, the config decides, else the default.
pub proof fn lemma_flag_values(cfg: Option<bool>, default: bool)
    ensures
        flag(Some("1"@), cfg, default) == Some(true),
        flag(Some("0"@), cfg, default) == Some(false),
        flag(None, cfg, default) == Some(
            match cfg {
                Some(b) => b,
                None => default,
            },
        ),
        flag(Some(""@), cfg, default) == flag(None, cfg, default),
{
    reveal_strlit("1");
    reveal_strlit("0");
    reveal_strlit("");
    assert("1"@.len() == 1 && "0"@.len() == 1 && ""@.len() == 0);
    assert("1"@ != "0"@) by {
        assert("1"@[0] == '1' && "0"@[0] == '0');
    }
}

} // verus!
