use vstd::prelude::*;

verus! {

/// What `std::path::Path::join` gives for `base` joined with `rel`, as text.
pub uninterp spec fn joined_path(base: Seq<char>, rel: Seq<char>) -> Seq<char>;

/// What `std::path::Path::strip_prefix` gives for `path` with the prefix
/// `base` removed, as text; `None` where `base` is not a prefix of `path`.
pub uninterp spec fn path_relative_to(path: Seq<char>, base: Seq<char>) -> Option<Seq<char>>;

/// What `std::path::Path::parent` gives for `path`, as text.
pub uninterp spec fn path_parent(path: Seq<char>) -> Option<Seq<char>>;

/// Calls `std::path::Path::join`. The contract only names the result:
/// joining is a function of the two paths.
#[verifier::external_body]
pub(crate) fn join_path(base: &str, rel: &str) -> (joined: String)
    ensures
        joined@ == joined_path(base@, rel@),
{
    std::path::Path::new(base).join(rel).to_string_lossy().into_owned()
}

/// Calls `std::path::Path::strip_prefix`. The contract only names the
/// result: it is a function of the two paths.
#[verifier::external_body]
pub(crate) fn relative_path(path: &str, base: &str) -> (rel: Option<String>)
    ensures
        match rel {
            Some(r) => path_relative_to(path@, base@) == Some(r@),
            None => path_relative_to(path@, base@) is None,
        },
{
    match std::path::Path::new(path).strip_prefix(base) {
        Ok(r) => Some(r.to_string_lossy().into_owned()),
        Err(_) => None,
    }
}

/// Calls `std::path::Path::parent`. The contract only names the result:
/// it is a function of the path.
#[verifier::external_body]
pub(crate) fn parent_path(path: &str) -> (parent: Option<String>)
    ensures
        match parent {
            Some(p) => path_parent(path@) == Some(p@),
            None => path_parent(path@) is None,
        },
{
    match std::path::Path::new(path).parent() {
        Some(p) => Some(p.to_string_lossy().into_owned()),
        None => None,
    }
}

} // verus!
