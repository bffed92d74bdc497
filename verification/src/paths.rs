//! File system paths, as `std::path` handles them. What `std::path` computes
//! on a path is named here, not restated: the library's decisions are stated
//! over these names.

use vstd::prelude::*;

verus! {

/// What `Path::parent` gives for a path.
pub uninterp spec fn std_path_parent(path: Seq<char>) -> Option<Seq<char>>;

/// What `Path::join` gives for a base and a relative part.
pub uninterp spec fn std_path_join(base: Seq<char>, rest: Seq<char>) -> Seq<char>;

/// What `Path::starts_with` says of a path and a base, component by component.
pub uninterp spec fn std_path_starts_with(path: Seq<char>, base: Seq<char>) -> bool;

/// What `Path::file_name` gives for a path.
pub uninterp spec fn std_path_file_name(path: Seq<char>) -> Option<Seq<char>>;

/// What `Path::strip_prefix` gives for a path and a base.
pub uninterp spec fn std_path_strip_prefix(path: Seq<char>, base: Seq<char>) -> Option<Seq<char>>;

/// `Path::parent`: the path without its final component; `None` for a root
/// or an empty path. The result is a slice of a UTF-8 text, so it converts
/// without loss. Beyond the empty path and `/`, only the name is stated.
#[verifier::external_body]
pub(crate) fn path_parent(path: &str) -> (r: Option<String>)
    ensures
        path@.len() == 0 ==> r is None,
        path@ == seq!['/'] ==> r is None,
        match r {
            Some(p) => std_path_parent(path@) == Some(p@),
            None => std_path_parent(path@) is None,
        },
{
    match std::path::Path::new(path).parent() {
        Some(p) => Some(p.to_string_lossy().into_owned()),
        None => None,
    }
}

/// `Path::join`: `rest` appended to `base` with a separator, or `rest` alone
/// when it is absolute (begins with `/`). Beyond that case, only the name is
/// stated.
#[verifier::external_body]
pub(crate) fn path_join(base: &str, rest: &str) -> (r: String)
    ensures
        r@ == std_path_join(base@, rest@),
        rest@.len() > 0 && rest@[0] == '/' ==> r@ == rest@,
{
    std::path::Path::new(base).join(rest).to_string_lossy().into_owned()
}

/// `Path::starts_with`: whether the components of `base` begin those of
/// `path`. Only the name is stated.
#[verifier::external_body]
pub(crate) fn path_starts_with(path: &str, base: &str) -> (r: bool)
    ensures
        r == std_path_starts_with(path@, base@),
{
    std::path::Path::new(path).starts_with(std::path::Path::new(base))
}

/// `Path::file_name` read as text: the final component, `None` when the
/// path ends in `..` or is a root. Only the name is stated.
#[verifier::external_body]
pub(crate) fn path_file_name(path: &str) -> (r: Option<String>)
    ensures
        match r {
            Some(n) => std_path_file_name(path@) == Some(n@),
            None => std_path_file_name(path@) is None,
        },
{
    match std::path::Path::new(path).file_name() {
        Some(n) => Some(n.to_string_lossy().into_owned()),
        None => None,
    }
}

/// `Path::strip_prefix`: what follows `base` in `path`, when `base` begins
/// it. Only the name is stated.
#[verifier::external_body]
pub(crate) fn path_strip_prefix(path: &str, base: &str) -> (r: Option<String>)
    ensures
        match r {
            Some(n) => std_path_strip_prefix(path@, base@) == Some(n@),
            None => std_path_strip_prefix(path@, base@) is None,
        },
{
    match std::path::Path::new(path).strip_prefix(std::path::Path::new(base)) {
        Ok(n) => Some(n.to_string_lossy().into_owned()),
        Err(_) => None,
    }
}

} // verus!
