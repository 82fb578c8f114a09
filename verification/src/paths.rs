//! Path arithmetic, done by the standard library.
//!
//! Paths are held as strings. What `std::path` computes from them is named
//! here, so that contracts can speak of it; the functions below are the only
//! places where `std::path` is asked.

use vstd::prelude::*;

verus! {

/// What `Path::join` gives for `base` and `name`.
pub uninterp spec fn spec_join(base: Seq<char>, name: Seq<char>) -> Seq<char>;

/// What `Path::parent` gives for `path`.
pub uninterp spec fn spec_parent(path: Seq<char>) -> Option<Seq<char>>;

/// What `Path::file_name` gives for `path`.
pub uninterp spec fn spec_file_name(path: Seq<char>) -> Option<Seq<char>>;

/// What `Path::starts_with` gives for `path` and `base`: whether `base` is a
/// prefix of `path`, taken component by component.
pub uninterp spec fn spec_starts_with(path: Seq<char>, base: Seq<char>) -> bool;

/// `std::path::Path::join`: `name` appended to `base` as further components.
/// The result depends on the two strings alone; the contract gives it its
/// name and claims nothing more.
#[verifier::external_body]
pub(crate) fn join_path(base: &str, name: &str) -> (r: String)
    ensures
        r@ == spec_join(base@, name@),
{
    std::path::Path::new(base).join(name).to_string_lossy().into_owned()
}

/// `std::path::Path::parent`: the path without its last component, where it
/// has one. The contract names the result and claims nothing more.
#[verifier::external_body]
pub(crate) fn parent_of(path: &str) -> (r: Option<String>)
    ensures
        match r {
            Some(p) => spec_parent(path@) == Some(p@),
            None => spec_parent(path@) is None,
        },
{
    std::path::Path::new(path).parent().map(|p| p.to_string_lossy().into_owned())
}

/// `std::path::Path::file_name`: the last component of the path, where it is
/// a normal one. The contract names the result and claims nothing more.
#[verifier::external_body]
pub(crate) fn file_name_of(path: &str) -> (r: Option<String>)
    ensures
        match r {
            Some(p) => spec_file_name(path@) == Some(p@),
            None => spec_file_name(path@) is None,
        },
{
    std::path::Path::new(path).file_name().map(|p| p.to_string_lossy().into_owned())
}

/// `std::path::Path::starts_with`, which compares whole components. The
/// contract names the result and claims nothing more.
#[verifier::external_body]
pub(crate) fn path_starts_with(path: &str, base: &str) -> (r: bool)
    ensures
        r == spec_starts_with(path@, base@),
{
    std::path::Path::new(path).starts_with(base)
}

} // verus!
