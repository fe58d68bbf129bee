//! Reading a project's manifest: a TOML document whose `package` table names
//! the project and may describe it.
//!
//! The TOML grammar is the `toml` crate's business. This module calls it and
//! states, over a plain model of what a TOML value holds, which project a
//! document describes.

use crate::project::{ProjectInfo, ProjectView};
use vstd::prelude::*;

verus! {

/// What a TOML value holds, as far as a manifest is read: a string, a table
/// of further values under their keys, or anything else (a number, a boolean,
/// a date, an array).
pub enum Item {
    Text(Seq<char>),
    Table(Map<Seq<char>, Item>),
    Other,
}

/// The entry of `item` under `key`: there is one only where `item` is a table
/// that holds the key.
pub open spec fn member(item: Item, key: Seq<char>) -> Option<Item> {
    match item {
        Item::Table(entries) => if entries.contains_key(key) {
            Some(entries[key])
        } else {
            None
        },
        _ => None,
    }
}

/// The text of `item`, where it is a string.
pub open spec fn text(item: Item) -> Option<Seq<char>> {
    match item {
        Item::Text(s) => Some(s),
        _ => None,
    }
}

/// The string that `doc` holds under `key` in its table `table`.
pub open spec fn field(doc: Item, table: Seq<char>, key: Seq<char>) -> Option<Seq<char>> {
    match member(doc, table) {
        Some(inner) => match member(inner, key) {
            Some(value) => text(value),
            None => None,
        },
        None => None,
    }
}

/// The project that the manifest document `doc`, found in the directory
/// `dir`, describes: its `package.name` must be a string that is not empty;
/// `package.description` is taken where it is a string, and anything else in
/// the document is ignored.
pub open spec fn described(doc: Item, dir: Seq<char>) -> Option<ProjectView> {
    match field(doc, "package"@, "name"@) {
        Some(name) => if name.len() == 0 {
            None
        } else {
            Some(
                ProjectView {
                    name,
                    description: field(doc, "package"@, "description"@),
                    path: dir,
                },
            )
        },
        None => None,
    }
}

/// A manifest never describes a project without a name.
pub proof fn lemma_described_has_name(doc: Item, dir: Seq<char>)
    ensures
        described(doc, dir) matches Some(p) ==> p.name.len() > 0 && p.path == dir,
{
}

/// The project that the manifest text `contents`, found in the directory
/// `dir`, describes. There is none where the text is no TOML document.
pub open spec fn manifest_project(contents: Seq<char>, dir: Seq<char>) -> Option<ProjectView> {
    match parsed(contents) {
        Some(doc) => described(doc, dir),
        None => None,
    }
}

/// `toml::Value`, a value of a TOML document. It is carried as it is; what
/// it holds is known through `item_of` only.
#[verifier::external_type_specification]
#[verifier::external_body]
pub struct ExValue(toml::Value);

/// `toml::de::Error`, the error of a text that is no TOML. Nothing is read
/// from it.
#[verifier::external_type_specification]
#[verifier::external_body]
pub struct ExError(toml::de::Error);

/// The document that the `toml` crate reads from `text`, where it accepts the
/// text as TOML.
pub uninterp spec fn parsed(text: Seq<char>) -> Option<Item>;

/// What the TOML value `value` holds.
pub uninterp spec fn item_of(value: toml::Value) -> Item;

/// Calls the parser of `toml::Value` (its `FromStr`). Trusted: the value that
/// comes back holds the document `parsed(text)`, and an error comes back
/// exactly where `parsed(text)` is `None`. Nothing is claimed of which texts
/// the crate accepts.
#[verifier::external_body]
fn parse_document(text: &str) -> (r: Result<toml::Value, toml::de::Error>)
    ensures
        match r {
            Ok(value) => parsed(text@) == Some(item_of(value)),
            Err(_) => parsed(text@) is None,
        },
{
    text.parse::<toml::Value>()
}

/// Calls `toml::Value::get` with a string key. Trusted: it returns the
/// entry under `key` where `value` is a table that holds the key, and `None`
/// for a missing key and for a value that is no table.
#[verifier::external_body]
fn entry<'a>(value: &'a toml::Value, key: &str) -> (r: Option<&'a toml::Value>)
    ensures
        match r {
            Some(found) => member(item_of(*value), key@) == Some(item_of(*found)),
            None => member(item_of(*value), key@) is None,
        },
{
    value.get(key)
}

/// Calls `toml::Value::as_str`. Trusted: it returns the text of a value that
/// is a string, and `None` for any other value.
#[verifier::external_body]
fn string_of<'a>(value: &'a toml::Value) -> (r: Option<&'a str>)
    ensures
        match r {
            Some(s) => text(item_of(*value)) == Some(s@),
            None => text(item_of(*value)) is None,
        },
{
    value.as_str()
}

/// Looks up the string under `key` in the table `table` of `doc`.
fn string_field(doc: &toml::Value, table: &str, key: &str) -> (r: Option<String>)
    ensures
        match r {
            Some(s) => field(item_of(*doc), table@, key@) == Some(s@),
            None => field(item_of(*doc), table@, key@) is None,
        },
{
    match entry(doc, table) {
        Some(inner) => match entry(inner, key) {
            Some(value) => match string_of(value) {
                Some(s) => Some(String::from_str(s)),
                None => None,
            },
            None => None,
        },
        None => None,
    }
}

/// Reads the project that a parsed manifest describes. `dir` is the
/// directory in which the manifest was found; it becomes the project's path.
/// A project always has a name: a document whose `package.name` is the empty
/// string describes none.
pub fn project_from_document(doc: &toml::Value, dir: &str) -> (r: Option<ProjectInfo>)
    ensures
        r.deep_view() == described(item_of(*doc), dir@),
        r matches Some(info) ==> info@.name.len() > 0,
{
    match string_field(doc, "package", "name") {
        Some(name) => {
            if name.as_str().is_empty() {
                None
            } else {
                let description = string_field(doc, "package", "description");
                Some(ProjectInfo { name, description, path: String::from_str(dir) })
            }
        },
        None => None,
    }
}

/// Reads the project that the manifest text `contents` describes. `dir` is
/// the directory in which the manifest was found; it becomes the project's
/// path. Any failure gives `None`: a text that is no TOML, a document without
/// a `package` table, a package without a `name`, a name that is no string
/// or is empty.
pub fn parse_cargo_toml(dir: &str, contents: &str) -> (r: Option<ProjectInfo>)
    ensures
        r.deep_view() == manifest_project(contents@, dir@),
        r matches Some(info) ==> info@.name.len() > 0,
{
    match parse_document(contents) {
        Ok(doc) => project_from_document(&doc, dir),
        Err(_) => None,
    }
}

} // verus!
