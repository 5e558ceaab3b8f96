//! Declarations of the std types that the library's types hold without looking inside.
use vstd::prelude::*;

verus! {

/// `std::io::Error`, carried by the error types of the library.
#[verifier::external_type_specification]
#[verifier::external_body]
pub struct ExIoError(std::io::Error);

/// `std::path::PathBuf`, carried by error types for paths that are not UTF-8.
#[verifier::external_type_specification]
#[verifier::external_body]
pub struct ExPathBuf(std::path::PathBuf);

/// The text that `Path::to_string_lossy` makes of a path: its bytes, with each sequence that
/// is not UTF-8 replaced by U+FFFD. It depends on the path's bytes alone.
pub uninterp spec fn lossy_text(p: std::path::PathBuf) -> Seq<char>;

/// The text that `Path::display` shows of a path. It depends on the path's bytes alone.
pub uninterp spec fn display_text(p: std::path::PathBuf) -> Seq<char>;

/// The text of a path, with each byte sequence that is not UTF-8 replaced by U+FFFD
/// (`Path::to_string_lossy`, then `Cow::into_owned`). The contract claims that the text is
/// `lossy_text` of the path; what that text is the library does not model.
#[verifier::external_body]
pub(crate) fn path_text_lossy(p: &std::path::PathBuf) -> (r: String)
    ensures
        r@ == lossy_text(*p),
{
    p.to_string_lossy().into_owned()
}

/// The text of a path as `Path::display` shows it, written out by `format!`. The contract
/// claims that the text is `display_text` of the path; what that text is the library does
/// not model.
#[verifier::external_body]
pub(crate) fn path_display_text(p: &std::path::PathBuf) -> (r: String)
    ensures
        r@ == display_text(*p),
{
    format!("{}", p.display())
}

/// `libc::S_IFREG`, the file type bits of a regular file in a `mode_t`: `0o100000` in the
/// libc sources for Unix systems.
#[verifier::external_body]
pub(crate) fn mode_regular() -> (r: libc::mode_t)
    ensures
        r == 0o100000,
{
    libc::S_IFREG
}

/// `libc::S_IFDIR`, the file type bits of a directory in a `mode_t`: `0o40000` in the libc
/// sources for Unix systems.
#[verifier::external_body]
pub(crate) fn mode_directory() -> (r: libc::mode_t)
    ensures
        r == 0o40000,
{
    libc::S_IFDIR
}

/// `libc::S_IFLNK`, the file type bits of a symbolic link in a `mode_t`: `0o120000` in the
/// libc sources for Unix systems.
#[verifier::external_body]
pub(crate) fn mode_symlink() -> (r: libc::mode_t)
    ensures
        r == 0o120000,
{
    libc::S_IFLNK
}

} // verus!
