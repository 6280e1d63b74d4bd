//! Path queries answered by `std::path::Path`.
//!
//! Each query is a trusted wrapper around one `Path` method. What the method
//! returns for a path is named by a spec function of the path's characters;
//! the contracts of the library speak of those names.

use std::path::{Path, PathBuf};
use vstd::prelude::*;

verus! {

/// What `Path::parent` returns for a path, as characters.
pub uninterp spec fn spec_parent(path: Seq<char>) -> Option<Seq<char>>;



/// What `Path::file_name` returns for a path, as characters.
pub uninterp spec fn spec_file_name(path: Seq<char>) -> Option<Seq<char>>;

/// Where the last `.` of a file name stands, if it has one.
pub open spec fn last_dot(name: Seq<char>) -> Option<int>
    decreases name.len(),
{
    if name.len() == 0 {
        None
    } else if name.last() == '.' {
        Some(name.len() - 1)
    } else {
        last_dot(name.drop_last())
    }
}

/// The stem of a path, as `Path::file_stem` documents it: none without a
/// file name; the whole file name when it has no `.` but a leading one;
/// else the part before its last `.`.
pub open spec fn spec_file_stem(path: Seq<char>) -> Option<Seq<char>> {
    match spec_file_name(path) {
        None => None,
        Some(n) => match last_dot(n) {
            Some(i) => if i > 0 {
                Some(n.take(i))
            } else {
                Some(n)
            },
            None => Some(n),
        },
    }
}

/// The extension of a path, as `Path::extension` documents it: none without
/// a file name or without a `.` but a leading one; else the part after its
/// last `.`.
pub open spec fn spec_extension(path: Seq<char>) -> Option<Seq<char>> {
    match spec_file_name(path) {
        None => None,
        Some(n) => match last_dot(n) {
            Some(i) => if i > 0 {
                Some(n.skip(i + 1))
            } else {
                None
            },
            None => None,
        },
    }
}

/// The components that `Path::components` yields for a path, each as characters.
pub uninterp spec fn spec_components(path: Seq<char>) -> Seq<Seq<char>>;

/// What `Path::join` gives for a base path and a name, as characters.
pub uninterp spec fn spec_join(base: Seq<char>, name: Seq<char>) -> Seq<char>;

/// What `PathBuf::from_iter` builds from path components given as strings, as characters.
pub uninterp spec fn spec_path_from(components: Seq<Seq<char>>) -> Seq<char>;

/// The normal form of a path: the path rebuilt from its components, so that
/// paths with the same components (`/a//b` and `/a/b`) have the same normal form.
pub open spec fn normal_form(path: Seq<char>) -> Seq<char> {
    spec_path_from(spec_components(path))
}

/// The characters of an optional string.
pub open spec fn opt_chars(o: Option<String>) -> Option<Seq<char>> {
    match o {
        Some(s) => Some(s@),
        None => None,
    }
}

/// Calls `Path::parent`. The contract claims that the result is the named
/// parent of the path and, as the documentation says that the parent is the
/// path without its final component, that it is shorter than the path.
#[verifier::external_body]
pub(crate) fn path_parent(path: &str) -> (r: Option<String>)
    ensures
        opt_chars(r) == spec_parent(path@),
        r matches Some(q) ==> q@.len() < path@.len(),
{
    match Path::new(path).parent() {
        Some(q) => Some(q.to_string_lossy().into_owned()),
        None => None,
    }
}

/// The number of components of a path.
pub open spec fn spec_component_count(path: Seq<char>) -> nat {
    spec_components(path).len()
}

/// The number of components of a path, counted from `Path::components`.
pub(crate) fn path_component_count(path: &str) -> (r: usize)
    ensures
        r == spec_component_count(path@),
{
    let comps = path_components(path);
    comps.len()
}

/// Calls `Path::file_name`; the contract claims that the result is the named one.
#[verifier::external_body]
pub(crate) fn path_file_name(path: &str) -> (r: Option<String>)
    ensures
        opt_chars(r) == spec_file_name(path@),
{
    match Path::new(path).file_name() {
        Some(n) => Some(n.to_string_lossy().into_owned()),
        None => None,
    }
}

/// Calls `Path::file_stem`; the contract claims what its documentation
/// says: the stem as `spec_file_stem` states it.
#[verifier::external_body]
pub(crate) fn path_file_stem(path: &str) -> (r: Option<String>)
    ensures
        opt_chars(r) == spec_file_stem(path@),
{
    match Path::new(path).file_stem() {
        Some(n) => Some(n.to_string_lossy().into_owned()),
        None => None,
    }
}

/// Calls `Path::extension`; the contract claims what its documentation
/// says: the extension as `spec_extension` states it.
#[verifier::external_body]
pub(crate) fn path_extension(path: &str) -> (r: Option<String>)
    ensures
        opt_chars(r) == spec_extension(path@),
{
    match Path::new(path).extension() {
        Some(n) => Some(n.to_string_lossy().into_owned()),
        None => None,
    }
}

/// Calls `Path::components` and turns each component into a string; the
/// contract claims that the strings are the named components, in order.
#[verifier::external_body]
pub(crate) fn path_components(path: &str) -> (r: Vec<String>)
    ensures
        r@.map_values(|s: String| s@) == spec_components(path@),
{
    Path::new(path).components().map(|c| c.as_os_str().to_string_lossy().into_owned()).collect()
}

/// Calls `PathBuf::from_iter` on path components given as strings; the
/// contract claims that the result is the named one.
#[verifier::external_body]
pub(crate) fn path_from_components(components: &Vec<String>) -> (r: String)
    ensures
        r@ == spec_path_from(components@.map_values(|s: String| s@)),
{
    PathBuf::from_iter(components.iter()).to_string_lossy().into_owned()
}

/// The normal form of a path, built from its components.
pub(crate) fn normalize(path: &str) -> (r: String)
    ensures
        r@ == normal_form(path@),
{
    let comps = path_components(path);
    path_from_components(&comps)
}

/// Calls `Path::join` on a base path and a name; the contract claims that
/// the result is the named one.
#[verifier::external_body]
pub(crate) fn path_join(base: &str, name: &str) -> (r: String)
    ensures
        r@ == spec_join(base@, name@),
{
    Path::new(base).join(name).to_string_lossy().into_owned()
}

} // verus!
