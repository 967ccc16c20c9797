//! Calls into std and into outside crates whose results the library takes as
//! they come: what is on disk, random numbers, media type guesses.

use vstd::prelude::*;

verus! {

/// `std::path::Path::exists`: whether something is on disk at `path`.
/// Nothing is stated of the answer: it depends on the disk.
#[verifier::external_body]
pub(crate) fn path_exists(path: &String) -> bool {
    std::path::Path::new(path).exists()
}

/// `std::path::Path::is_dir`: whether `path` names a directory on disk.
/// Nothing is stated of the answer: it depends on the disk.
#[verifier::external_body]
pub(crate) fn path_is_dir(path: &String) -> bool {
    std::path::Path::new(path).is_dir()
}

/// `std::path::Path::is_file`: whether `path` names a regular file on disk.
/// Nothing is stated of the answer: it depends on the disk.
#[verifier::external_body]
pub(crate) fn path_is_file(path: &String) -> bool {
    std::path::Path::new(path).is_file()
}

/// `fastrand::usize(..n)`: a random number below `n`. The crate panics on an
/// empty range, so `n` must be positive; the contract claims only that the
/// number is in range, not how it is distributed.
#[verifier::external_body]
pub(crate) fn random_below(n: usize) -> (r: usize)
    requires
        n > 0,
    ensures
        r < n,
{
    fastrand::usize(..n)
}

/// `walkdir::WalkDir::new(path).sort_by_file_name()`: every entry under
/// `path` (the path itself first), depth first with the entries of each
/// directory sorted by name, as text; entries that could not be read are
/// skipped. Nothing is stated of the entries: they depend on the disk.
#[verifier::external_body]
pub(crate) fn walk_sorted(path: &String) -> Vec<String> {
    walkdir::WalkDir::new(path)
        .sort_by_file_name()
        .into_iter()
        .filter_map(|entry| entry.ok())
        .map(|entry| entry.path().to_string_lossy().into_owned())
        .collect()
}

/// The top-level media type (`image` in `image/png`) of the first guess that
/// `new_mime_guess` makes from the extension of a path, if it has one.
pub uninterp spec fn guessed_top_level_type(path: Seq<char>) -> Option<Seq<char>>;

/// `new_mime_guess::from_path(path).first()`, reduced to its top-level type:
/// the guess is made from the path's extension alone, so the result is named
/// as a function of the path.
#[verifier::external_body]
pub(crate) fn guess_top_level_type(path: &String) -> (r: Option<String>)
    ensures
        match r {
            Some(t) => guessed_top_level_type(path@) == Some(t@),
            None => guessed_top_level_type(path@) is None,
        },
{
    new_mime_guess::from_path(path).first().map(|mime| mime.type_().as_str().to_string())
}

} // verus!
