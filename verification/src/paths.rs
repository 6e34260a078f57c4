//! File system paths, held as text, and the `std::path` operations the analysis uses.
//!
//! Each path is a `String`. Two paths name the same file system entry, in the
//! sense of `PathBuf`'s equality, exactly when their component forms
//! (`path_identity`) are equal; every comparison of paths in this crate goes
//! through that form.
use vstd::prelude::*;

verus! {

/// The text of `Path::components` of `p` collected back into a path.
pub uninterp spec fn path_identity(p: Seq<char>) -> Seq<char>;

/// `Path::parent` of `p`, as text.
pub uninterp spec fn parent_of(p: Seq<char>) -> Option<Seq<char>>;

/// `Path::join` of `base` and `p`, as text.
pub uninterp spec fn joined(base: Seq<char>, p: Seq<char>) -> Seq<char>;

/// `Path::is_absolute` of `p`.
pub uninterp spec fn is_absolute_path(p: Seq<char>) -> bool;

/// `Path::file_name` of `p`, as text.
pub uninterp spec fn file_name_of(p: Seq<char>) -> Option<Seq<char>>;

/// `Path::extension` of `p`, as text.
pub uninterp spec fn extension_of(p: Seq<char>) -> Option<Seq<char>>;

/// `std::path::absolute` of a path that is already absolute, as text: the
/// path with its components normalized, which does not depend on the current
/// directory.
pub uninterp spec fn absolute_form(p: Seq<char>) -> Seq<char>;

/// The component form of a path: `Path::components` collected into a `PathBuf`.
/// The contract names the result; it claims nothing of how separators and `.`
/// components are normalized.
#[verifier::external_body]
pub(crate) fn path_key(p: &str) -> (k: String)
    ensures
        k@ == path_identity(p@),
{
    std::path::Path::new(p).components().collect::<std::path::PathBuf>().to_string_lossy().into_owned()
}

/// `Path::parent`: the path without its last component, if it has one.
/// The contract names the result.
#[verifier::external_body]
pub(crate) fn path_parent(p: &str) -> (r: Option<String>)
    ensures
        r is Some == parent_of(p@) is Some,
        r matches Some(q) ==> q@ == parent_of(p@).unwrap(),
{
    std::path::Path::new(p).parent().map(|q| q.to_string_lossy().into_owned())
}

/// `Path::join`: `p` appended to `base`. The contract names the result.
#[verifier::external_body]
pub(crate) fn path_join(base: &str, p: &str) -> (r: String)
    ensures
        r@ == joined(base@, p@),
{
    std::path::Path::new(base).join(p).to_string_lossy().into_owned()
}

/// `Path::is_absolute`. The contract names the result; `Path::is_relative`
/// is documented as its negation.
#[verifier::external_body]
pub(crate) fn path_is_absolute(p: &str) -> (r: bool)
    ensures
        r == is_absolute_path(p@),
{
    std::path::Path::new(p).is_absolute()
}

/// `std::path::absolute`: `p` made absolute against the process's current
/// directory, without touching the file system. For a relative path the
/// result depends on the current directory, so the contract states only what
/// holds of every outcome: an empty path is refused, and a result is an
/// absolute path. An absolute path needs no current directory and is not
/// empty, so neither of the documented failures applies: it is made absolute,
/// and the result is named, as it does not depend on the current directory.
#[verifier::external_body]
pub(crate) fn path_absolute(p: &str) -> (r: Option<String>)
    ensures
        p@.len() == 0 ==> r is None,
        r matches Some(a) ==> is_absolute_path(a@),
        is_absolute_path(p@) && p@.len() > 0 ==> r is Some && r.unwrap()@ == absolute_form(p@),
{
    std::path::absolute(p).ok().map(|a| a.to_string_lossy().into_owned())
}

/// `Path::file_name`: the last component, unless it is `..`. The contract names
/// the result.
#[verifier::external_body]
pub(crate) fn path_file_name(p: &str) -> (r: Option<String>)
    ensures
        r is Some == file_name_of(p@) is Some,
        r matches Some(n) ==> n@ == file_name_of(p@).unwrap(),
{
    std::path::Path::new(p).file_name().map(|n| n.to_string_lossy().into_owned())
}

/// `Path::extension`: the part of the file name after its last dot. The
/// contract names the result.
#[verifier::external_body]
pub(crate) fn path_extension(p: &str) -> (r: Option<String>)
    ensures
        r is Some == extension_of(p@) is Some,
        r matches Some(e) ==> e@ == extension_of(p@).unwrap(),
{
    std::path::Path::new(p).extension().map(|e| e.to_string_lossy().into_owned())
}

/// How a path read from a workspace description is resolved against a base
/// folder: an absolute path is kept as written; a relative path is joined to
/// the base and made absolute, which, when the joined path is already
/// absolute, gives its normalized form, and otherwise depends on the current
/// directory, where making it absolute may fail and drop the path.
pub open spec fn resolved_against(base: Seq<char>, p: Seq<char>, r: Option<Seq<char>>) -> bool {
    if is_absolute_path(p) {
        r == Some(p)
    } else if is_absolute_path(joined(base, p)) && joined(base, p).len() > 0 {
        r == Some(absolute_form(joined(base, p)))
    } else {
        r matches Some(a) ==> is_absolute_path(a)
    }
}

/// Resolves `p` against `base` as `resolved_against` describes.
pub fn resolve_path(base: &str, p: &str) -> (r: Option<String>)
    ensures
        match r {
            Some(a) => resolved_against(base@, p@, Some(a@)),
            None => resolved_against(base@, p@, None),
        },
{
    if path_is_absolute(p) {
        Some(p.to_string())
    } else {
        let j = path_join(base, p);
        path_absolute(j.as_str())
    }
}

} // verus!
