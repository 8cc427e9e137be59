//! Turning a value into the text of a snapshot: the settings decide
//! whether maps are sorted and which redactions apply, the format decides
//! the text.
use vstd::prelude::*;

use crate::content::Content;
use crate::content::ContentV;
use crate::content::json::{Format, MAX_INDENT, can_write, json, to_string_compact, to_string_pretty, writable};
use crate::content::order::maps_sorted;
use crate::content::yaml::{to_snapshot_string, yaml_snapshot};
use crate::settings::{Settings, redacted_by, redaction_views};
use crate::text::{chars_of, string_from};

verus! {

/// The formats a snapshot can be written in.  CSV, RON and TOML are
/// written through serde by the caller; the library writes the others.
#[derive(Debug, Clone, Copy)]
pub enum SerializationFormat {
    Csv,
    Ron,
    Toml,
    Yaml,
    Json,
    JsonCompact,
}

/// Where a snapshot is stored.
#[derive(Debug, Clone, Copy)]
pub enum SnapshotLocation {
    Inline,
    File,
}

/// The value as it is serialized: with its maps sorted where the settings
/// ask for it, then with the redactions of the settings applied.
pub open spec fn prepared(c: ContentV, settings: Settings) -> ContentV {
    let sorted = if settings.sort_maps {
        maps_sorted(c)
    } else {
        c
    };
    redacted_by(sorted, redaction_views(settings.redactions@), settings.redactions@.len())
}

/// Whether the value can be written in the format: always as YAML; as
/// JSON where its containers do not nest too deep and its map keys can be
/// written.
pub open spec fn renderable(format: SerializationFormat, v: ContentV) -> bool {
    match format {
        SerializationFormat::Yaml => true,
        SerializationFormat::Json => writable(v, MAX_INDENT as nat),
        SerializationFormat::JsonCompact => writable(v, MAX_INDENT as nat),
        _ => false,
    }
}

/// The text of a value in a format the library writes: YAML without its
/// document marker, pretty JSON, or compact JSON.
pub open spec fn rendered(format: SerializationFormat, v: ContentV) -> Seq<char> {
    match format {
        SerializationFormat::Yaml => yaml_snapshot(v),
        SerializationFormat::Json => json(Format::Pretty, v),
        SerializationFormat::JsonCompact => json(Format::PrettyCompact, v),
        _ => Seq::empty(),
    }
}

/// Sorts the maps of the value where the settings ask for it, then applies
/// the redactions of the settings.
pub fn prepare_content(content: Content, settings: &Settings) -> (r: Content)
    ensures
        r@ == prepared(content@, *settings),
{
    let mut c = content;
    if settings.sort_maps() {
        c.sort_maps();
    }
    settings.apply_redactions(c)
}

/// Whether the library can write the value in the format.
pub fn can_render(content: &Content, format: SerializationFormat) -> (r: bool)
    ensures
        r == renderable(format, content@),
{
    match format {
        SerializationFormat::Yaml => true,
        SerializationFormat::Json => can_write(content, MAX_INDENT),
        SerializationFormat::JsonCompact => can_write(content, MAX_INDENT),
        _ => false,
    }
}

/// Writes a value in a format the library writes.
pub fn render_content(content: &Content, format: SerializationFormat) -> (r: String)
    requires
        renderable(format, content@),
    ensures
        r@ == rendered(format, content@),
{
    match format {
        SerializationFormat::Json => to_string_pretty(content),
        SerializationFormat::JsonCompact => to_string_compact(content),
        _ => to_snapshot_string(content),
    }
}

/// Serializes a value for a snapshot under the given settings.
pub fn serialize_content(content: Content, format: SerializationFormat, settings: &Settings) -> (r:
    String)
    requires
        renderable(format, prepared(content@, *settings)),
    ensures
        r@ == rendered(format, prepared(content@, *settings)),
{
    let c = prepare_content(content, settings);
    render_content(&c, format)
}

/// Serializes a value for a snapshot where the library can write it in
/// the format, and says where it cannot.
pub fn try_serialize_content(content: Content, format: SerializationFormat, settings: &Settings) -> (r:
    Option<String>)
    ensures
        renderable(format, prepared(content@, *settings)) <==> r is Some,
        r matches Some(s) ==> s@ == rendered(format, prepared(content@, *settings)),
{
    let c = prepare_content(content, settings);
    if can_render(&c, format) {
        Some(render_content(&c, format))
    } else {
        None
    }
}

/// The text without its final line break, where it ends in one.
pub open spec fn without_final_newline(s: Seq<char>) -> Seq<char> {
    if s.len() > 0 && s.last() == '\n' {
        s.drop_last()
    } else {
        s
    }
}

/// Drops the final line break of serialized output, where there is one.
pub fn trim_final_newline(s: &str) -> (r: String)
    ensures
        r@ == without_final_newline(s@),
{
    let mut cs = chars_of(s);
    if cs.len() > 0 && cs[cs.len() - 1] == '\n' {
        cs.pop();
    }
    string_from(cs.as_slice())
}

} // verus!
