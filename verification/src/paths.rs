//! The file stem of a path a caller named, as the standard library reads it.
use vstd::prelude::*;

verus! {

/// What `Path::file_stem` reads from a path string: the final component
/// without its last extension, or nothing when the path names no file.
pub uninterp spec fn path_stem(path: Seq<char>) -> Option<Seq<char>>;

/// `Path::new(path).file_stem()`, as a string. A path made from a `&str` is
/// valid UTF-8, so the lossy conversion is exact.
#[verifier::external_body]
pub(crate) fn file_stem(path: &str) -> (r: Option<String>)
    ensures
        match r {
            Some(s) => path_stem(path@) == Some(s@),
            None => path_stem(path@) is None,
        },
{
    std::path::Path::new(path).file_stem().map(|s| s.to_string_lossy().into_owned())
}

} // verus!
