//! File-system paths held as strings, with `std::path` doing the path algebra.
use std::path::Path;
use vstd::prelude::*;

verus! {

/// `Path::join` (with `/` as the separator): an absolute `part` replaces
/// `base`; otherwise `part` follows `base`, after a `/` unless `base` is empty
/// or already ends in one.
pub open spec fn spec_path_join(base: Seq<char>, part: Seq<char>) -> Seq<char> {
    if part.len() > 0 && part[0] == '/' {
        part
    } else if base.len() == 0 || base.last() == '/' {
        base + part
    } else {
        base + seq!['/'] + part
    }
}

/// `Path::extension`: the text after the last `.` of the file name, if any.
pub uninterp spec fn spec_path_extension(path: Seq<char>) -> Option<Seq<char>>;

/// `Path::starts_with`: `base` is a whole-component prefix of `path`.
pub uninterp spec fn spec_path_starts_with(path: Seq<char>, base: Seq<char>) -> bool;

/// `Path::strip_prefix`: what follows the whole-component prefix `base` of `path`.
pub uninterp spec fn spec_path_strip_prefix(path: Seq<char>, base: Seq<char>) -> Option<Seq<char>>;

/// `Path`'s `==`: the two paths have the same components.
pub uninterp spec fn spec_path_eq(a: Seq<char>, b: Seq<char>) -> bool;

/// `str::to_lowercase`: the Unicode lowercase mapping of a string.
pub uninterp spec fn spec_to_lowercase(s: Seq<char>) -> Seq<char>;

/// ASCII lowercase of one character.
pub open spec fn ascii_lower(c: char) -> char {
    if 'A' <= c && c <= 'Z' {
        ((c as u32) + 32) as char
    } else {
        c
    }
}

/// Calls `Path::join` on `Path::new(base)`.  Trusted: the result (as a string)
/// is `spec_path_join(base, part)`, as `PathBuf::push` documents it for Unix
/// (a path is absolute when it starts with `/`).
#[verifier::external_body]
pub(crate) fn path_join(base: &str, part: &str) -> (r: String)
    ensures
        r@ == spec_path_join(base@, part@),
{
    Path::new(base).join(part).to_string_lossy().into_owned()
}

/// Calls `Path::extension` on `Path::new(path)`.  Trusted: the result is
/// `spec_path_extension(path)`; a string path's extension is valid UTF-8, so
/// nothing is lost converting it.
#[verifier::external_body]
pub(crate) fn path_extension(path: &str) -> (r: Option<String>)
    ensures
        opt_string_view(r) == spec_path_extension(path@),
{
    Path::new(path).extension().map(|e| e.to_string_lossy().into_owned())
}

/// Calls `Path::starts_with` on `Path::new(path)`.  Trusted: the result is
/// `spec_path_starts_with(path, base)`.
#[verifier::external_body]
pub(crate) fn path_starts_with(path: &str, base: &str) -> (r: bool)
    ensures
        r == spec_path_starts_with(path@, base@),
{
    Path::new(path).starts_with(base)
}

/// Calls `Path::strip_prefix` on `Path::new(path)`.  Trusted: the result is
/// `spec_path_strip_prefix(path, base)`, `None` standing for the error.
#[verifier::external_body]
pub(crate) fn path_strip_prefix(path: &str, base: &str) -> (r: Option<String>)
    ensures
        opt_string_view(r) == spec_path_strip_prefix(path@, base@),
{
    Path::new(path).strip_prefix(base).ok().map(|p| p.to_string_lossy().into_owned())
}

/// Calls `PartialEq::eq` on `Path::new(a)` and `Path::new(b)`.  Trusted: the
/// result is `spec_path_eq(a, b)`.
#[verifier::external_body]
pub(crate) fn path_eq(a: &str, b: &str) -> (r: bool)
    ensures
        r == spec_path_eq(a@, b@),
{
    Path::new(a) == Path::new(b)
}

/// Calls `str::to_lowercase`.  Trusted: the result is `spec_to_lowercase(s)`;
/// for an ASCII string it is the ASCII lowercase of each character, as the
/// Unicode lowercase mapping of ASCII letters is.
#[verifier::external_body]
pub(crate) fn to_lowercase(s: &str) -> (r: String)
    ensures
        r@ == spec_to_lowercase(s@),
        (forall|i: int| 0 <= i < s@.len() ==> (#[trigger] s@[i] as u32) < 128) ==> r@ == s@.map_values(|c: char| ascii_lower(c)),
{
    s.to_lowercase()
}

/// The character view of an optional string.
pub open spec fn opt_string_view(o: Option<String>) -> Option<Seq<char>> {
    match o {
        Some(s) => Some(s@),
        None => None,
    }
}

/// Calls `dirs::home_dir`, rendered as a string.  The result depends on the
/// environment of the process, so nothing is stated of it.
#[verifier::external_body]
pub(crate) fn home_dir() -> Option<String> {
    dirs::home_dir().map(|p| p.to_string_lossy().into_owned())
}

} // verus!
