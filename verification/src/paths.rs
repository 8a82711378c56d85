//! File paths as text.
//!
//! Paths are held as strings. Taking them apart is left to `std::path`, for
//! the platform that the crate is built for.

use std::path::Path;
use vstd::prelude::*;

verus! {

/// What `Path::file_name` returns for the path.
pub uninterp spec fn file_name_of(path: Seq<char>) -> Option<Seq<char>>;

/// What `Path::file_stem` returns for the path.
pub uninterp spec fn file_stem_of(path: Seq<char>) -> Option<Seq<char>>;

/// What `Path::extension` returns for the path.
pub uninterp spec fn extension_of(path: Seq<char>) -> Option<Seq<char>>;

/// What `Path::parent` returns for the path.
pub uninterp spec fn parent_of(path: Seq<char>) -> Option<Seq<char>>;

/// What `Path::join` returns for the two paths.
pub uninterp spec fn joined(base: Seq<char>, rest: Seq<char>) -> Seq<char>;

/// Calls `Path::file_name`: the last component of the path, if it has one.
/// The component is part of the given text, so it is handed out as text
/// unchanged. How a path is taken apart is not specified here: the result is
/// only given the name [`file_name_of`].
#[verifier::external_body]
pub(crate) fn file_name(path: &str) -> (name: Option<String>)
    ensures
        name.deep_view() == file_name_of(path@),
{
    Path::new(path).file_name().map(|name| name.to_string_lossy().into_owned())
}

/// Calls `Path::file_stem`: the file name without its extension. The result is
/// only given the name [`file_stem_of`].
#[verifier::external_body]
pub(crate) fn file_stem(path: &str) -> (stem: Option<String>)
    ensures
        stem.deep_view() == file_stem_of(path@),
{
    Path::new(path).file_stem().map(|stem| stem.to_string_lossy().into_owned())
}

/// Calls `Path::extension`: what follows the last dot of the file name. The
/// result is only given the name [`extension_of`].
#[verifier::external_body]
pub(crate) fn extension(path: &str) -> (ext: Option<String>)
    ensures
        ext.deep_view() == extension_of(path@),
{
    Path::new(path).extension().map(|ext| ext.to_string_lossy().into_owned())
}

/// Calls `Path::parent`: the path without its last component. The result is
/// only given the name [`parent_of`].
#[verifier::external_body]
pub(crate) fn parent(path: &str) -> (dir: Option<String>)
    ensures
        dir.deep_view() == parent_of(path@),
{
    Path::new(path).parent().map(|dir| dir.to_string_lossy().into_owned())
}

/// Calls `Path::join`: `rest` appended to `base` as a path, or `rest` alone
/// where it is absolute. The result is only given the name [`joined`].
#[verifier::external_body]
pub(crate) fn join_path(base: &str, rest: &str) -> (path: String)
    ensures
        path@ == joined(base@, rest@),
{
    Path::new(base).join(rest).to_string_lossy().into_owned()
}

} // verus!
