//! Naming the output after the input file.
use crate::text::occurs_at;
use vstd::prelude::*;

verus! {

/// Calls `std::path::Path::file_stem` on `path` and tells its outcomes apart.
///
/// The standard library documents the stem as a portion of the file name,
/// and the file name as the final component of the path. How a path is cut
/// into components depends on the platform, so all that is claimed here is
/// that a stem, where there is one, stands somewhere in the path.
#[verifier::external_body]
fn path_file_stem(path: &str) -> (stem: Stem)
    ensures
        stem matches Stem::Text(s) ==> exists|at: int| occurs_at(path@, s@, at),
{
    match std::path::Path::new(path).file_stem() {
        Some(stem) => match stem.to_str() {
            Some(s) => Stem::Text(s.to_owned()),
            None => Stem::NotText,
        },
        None => Stem::Absent,
    }
}

/// The name of the file that `path` leads to, without its extension; `None`
/// where the path has no file name.
pub fn get_file_name(path: &str) -> (name: Option<String>)
    ensures
        name matches Some(s) ==> exists|at: int| occurs_at(path@, s@, at),
{
    let stem = path_file_stem(path);
    let name = name_from_stem(stem);
    assert(name matches Some(s) ==> stem == Stem::Text(s));
    name
}

/// What the standard library finds as the stem of a path's file name.
#[derive(Debug, PartialEq, Eq)]
pub enum Stem {
    /// The path has no file name.
    Absent,
    /// The file name has a stem that is not Unicode text.
    NotText,
    /// The stem of the file name.
    Text(String),
}

/// The name that a stem gives to the output: the stem itself where it is
/// text, and none where the path has no file name or the stem is not text.
pub fn name_from_stem(stem: Stem) -> (name: Option<String>)
    ensures
        name == (match stem {
            Stem::Text(text) => Some(text),
            Stem::Absent => None,
            Stem::NotText => None,
        }),
{
    match stem {
        Stem::Text(text) => Some(text),
        Stem::Absent => None,
        Stem::NotText => None,
    }
}

} // verus!
