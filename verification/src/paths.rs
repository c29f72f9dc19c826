//! Paths as `std::path::Path` treats them, for the impact view.

use vstd::prelude::*;

verus! {

/// Whether `Path::is_absolute` holds of the path written as the text.
pub uninterp spec fn spec_is_absolute(path: Seq<char>) -> bool;

/// The text of `Path::join(base, path)`.
pub uninterp spec fn spec_path_join(base: Seq<char>, path: Seq<char>) -> Seq<char>;

/// The text of `Path::strip_prefix(path, base)`: `None` when `base` is not
/// a prefix of `path` component by component.
pub uninterp spec fn spec_strip_prefix(path: Seq<char>, base: Seq<char>) -> Option<Seq<char>>;

/// Calls `std::path::Path::is_absolute` on the path written as `path`; the
/// contract names the result.
#[verifier::external_body]
fn path_is_absolute(path: &str) -> (res: bool)
    ensures
        res == spec_is_absolute(path@),
{
    std::path::Path::new(path).is_absolute()
}

/// Calls `std::path::Path::join` and returns the joined path's text (it
/// comes from two `str`s, so `to_string_lossy` loses nothing); the contract
/// names the result.
#[verifier::external_body]
fn path_join(base: &str, path: &str) -> (res: String)
    ensures
        res@ == spec_path_join(base@, path@),
{
    std::path::Path::new(base).join(path).to_string_lossy().to_string()
}

/// Calls `std::path::Path::strip_prefix` and returns the remaining path's
/// text, or `None` for its error; the contract names the result.
#[verifier::external_body]
fn path_strip_prefix(path: &str, base: &str) -> (res: Option<String>)
    ensures
        match res {
            Some(r) => spec_strip_prefix(path@, base@) == Some(r@),
            None => spec_strip_prefix(path@, base@) is None,
        },
{
    match std::path::Path::new(path).strip_prefix(base) {
        Ok(rel) => Some(rel.to_string_lossy().to_string()),
        Err(_) => None,
    }
}

/// The path given on the command line, made relative to the repository
/// root: an absolute path is taken as it is, a relative one is joined to the
/// working directory; when the result lies under the root, the part below
/// the root, otherwise the path as given.
pub open spec fn normalized_path(cwd: Seq<char>, repo_root: Seq<char>, path: Seq<char>) -> Seq<char> {
    let abs = if spec_is_absolute(path) { path } else { spec_path_join(cwd, path) };
    relative_or_given(spec_strip_prefix(abs, repo_root), path)
}

/// The stripped path when there is one, else the path as given.
pub open spec fn relative_or_given(stripped: Option<Seq<char>>, path: Seq<char>) -> Seq<char> {
    match stripped {
        Some(r) => r,
        None => path,
    }
}

/// The stripped path when stripping the root succeeded, else the path as given.
pub fn pick_relative(stripped: Option<String>, path: &str) -> (res: String)
    ensures
        res@ == relative_or_given(
            match stripped {
                Some(r) => Some(r@),
                None => None,
            },
            path@,
        ),
{
    match stripped {
        Some(rel) => rel,
        None => String::from_str(path),
    }
}

/// Makes `path` relative to the repository root, as described at
/// `normalized_path`.
pub fn normalize_path(cwd: &str, repo_root: &str, path: &str) -> (res: String)
    ensures
        res@ == normalized_path(cwd@, repo_root@, path@),
{
    let joined;
    let abs: &str = if path_is_absolute(path) {
        path
    } else {
        joined = path_join(cwd, path);
        joined.as_str()
    };
    pick_relative(path_strip_prefix(abs, repo_root), path)
}

} // verus!
