//! The error types of the file tree readers.
use vstd::prelude::*;

use crate::outside::{display_text, path_display_text};

verus! {

/// The error type of the `FileTree` functions: what went wrong, at which path, and an
/// optional context for debugging (may be empty).
#[derive(Debug)]
pub struct FtError {
    context: &'static str,
    kind: FtErrorKind,
    path: std::path::PathBuf,
}

/// The reasons for a `FtError`.
#[derive(Debug)]
pub enum FtErrorKind {
    /// A read failed.
    ReadError(std::io::Error),
    /// A write failed.
    WriteError(std::io::Error),
    /// The file was not found.
    NotFoundError,
    /// A directory was expected.
    NotADirectoryError,
    /// A symlink was expected.
    NotASymlinkError,
}

/// The result of the `FileTree` functions.
pub type FtResult<T> = Result<T, FtError>;

impl FtError {
    /// The context of the error.
    pub closed spec fn context_of(self) -> &'static str {
        self.context
    }

    /// The reason for the error.
    pub closed spec fn kind_of(self) -> FtErrorKind {
        self.kind
    }

    /// Where the error occurred.
    pub closed spec fn path_of(self) -> std::path::PathBuf {
        self.path
    }

    /// An error of kind `kind` at `path`, with `context`.
    pub fn new(kind: FtErrorKind, path: std::path::PathBuf, context: &'static str) -> (r: Self)
        ensures
            r.kind_of() == kind,
            r.path_of() == path,
            r.context_of() == context,
    {
        FtError { context, kind, path }
    }

    /// Description of the error.
    pub fn context(&self) -> (r: &'static str)
        ensures
            r == self.context_of(),
    {
        self.context
    }

    /// The reason for the error.
    pub fn kind(&self) -> (r: &FtErrorKind)
        ensures
            *r == self.kind_of(),
    {
        &self.kind
    }

    /// Path to where the error occurred.
    pub fn path(&self) -> (r: &std::path::PathBuf)
        ensures
            *r == self.path_of(),
    {
        &self.path
    }
}


/// What the kind `kind` of a `FtError` says first: `head` is its text.
pub open spec fn fterror_head_text(kind: FtErrorKind, head: Seq<char>) -> bool {
    match kind {
        FtErrorKind::ReadError(e) => exists|shown: String|
            vstd::string::to_string_from_display_ensures::<std::io::Error>(&e, shown)
                && head == "Read error: "@ + shown@,
        FtErrorKind::WriteError(e) => exists|shown: String|
            vstd::string::to_string_from_display_ensures::<std::io::Error>(&e, shown)
                && head == "Write error: "@ + shown@,
        FtErrorKind::NotFoundError => head == "Error: file not found: "@,
        FtErrorKind::NotADirectoryError => head == "Error: not a directory: "@,
        FtErrorKind::NotASymlinkError => head == "Error: not a symlink: "@,
    }
}

impl FtError {
    /// The I/O error under this one, if any (what `std::error::Error::source` gives).
    pub fn source(&self) -> (r: Option<&std::io::Error>)
        ensures
            match self.kind_of() {
                FtErrorKind::ReadError(e) => r == Some(&e),
                FtErrorKind::WriteError(e) => r == Some(&e),
                _ => r is None,
            },
    {
        match &self.kind {
            FtErrorKind::ReadError(io_source) | FtErrorKind::WriteError(io_source) => Some(io_source),
            _ => None,
        }
    }

    /// The error as text for the user: what went wrong, the context unless it is empty,
    /// and the path, as in `Read error: <io error>: <context>: from '<path>'.` The texts of
    /// the I/O error and of the path are those that std displays.
    pub fn message(&self) -> (r: String)
        ensures
            exists|head: Seq<char>|
                fterror_head_text(self.kind_of(), head) && r@ == head + context_text(
                    self.context_of()@,
                ) + "from '"@ + display_text(self.path_of()) + "'."@,
    {
        let mut text = String::new();
        match &self.kind {
            FtErrorKind::ReadError(io_err) => {
                text.append("Read error: ");
                let shown = io_err.to_string();
                text.append(shown.as_str());
            },
            FtErrorKind::WriteError(io_err) => {
                text.append("Write error: ");
                let shown = io_err.to_string();
                text.append(shown.as_str());
            },
            FtErrorKind::NotFoundError => text.append("Error: file not found: "),
            FtErrorKind::NotADirectoryError => text.append("Error: not a directory: "),
            FtErrorKind::NotASymlinkError => text.append("Error: not a symlink: "),
        }
        let ghost head = text@;
        if self.context.unicode_len() != 0 {
            text.append(self.context);
            text.append(": ");
        }
        text.append("from '");
        let shown_path = path_display_text(&self.path);
        text.append(shown_path.as_str());
        text.append("'.");
        assert(fterror_head_text(self.kind_of(), head));
        assert(text@ == head + context_text(self.context_of()@) + "from '"@ + shown_path@ + "'."@);
        text
    }
}

/// The error type of the `File` functions: what went wrong, at which path, and an
/// optional context for debugging (may be empty).
#[derive(Debug)]
pub struct FsError {
    context: &'static str,
    kind: FsErrorKind,
    path: std::path::PathBuf,
}

/// The reasons for a `FsError`.
#[derive(Debug)]
pub enum FsErrorKind {
    /// A read failed.
    ReadError(std::io::Error),
    /// A write failed.
    WriteError(std::io::Error),
    /// The file was not found.
    NotFoundError,
    /// A directory was expected.
    NotADirectoryError,
    /// A symlink was expected.
    NotASymlinkError,
}

/// The result of the `File` functions.
pub type FsResult<T> = Result<T, FsError>;

impl FsError {
    /// The context of the error.
    pub closed spec fn context_of(self) -> &'static str {
        self.context
    }

    /// The reason for the error.
    pub closed spec fn kind_of(self) -> FsErrorKind {
        self.kind
    }

    /// Where the error occurred.
    pub closed spec fn path_of(self) -> std::path::PathBuf {
        self.path
    }

    /// An error of kind `kind` at `path`, with `context`.
    pub fn new(kind: FsErrorKind, path: std::path::PathBuf, context: &'static str) -> (r: Self)
        ensures
            r.kind_of() == kind,
            r.path_of() == path,
            r.context_of() == context,
    {
        FsError { context, kind, path }
    }

    /// Description of the error.
    pub fn context(&self) -> (r: &'static str)
        ensures
            r == self.context_of(),
    {
        self.context
    }

    /// The reason for the error.
    pub fn kind(&self) -> (r: &FsErrorKind)
        ensures
            *r == self.kind_of(),
    {
        &self.kind
    }

    /// Path to where the error occurred.
    pub fn path(&self) -> (r: &std::path::PathBuf)
        ensures
            *r == self.path_of(),
    {
        &self.path
    }
}

/// What the kind `kind` of a `FsError` says first: `head` is its text.
pub open spec fn fserror_head_text(kind: FsErrorKind, head: Seq<char>) -> bool {
    match kind {
        FsErrorKind::ReadError(e) => exists|shown: String|
            vstd::string::to_string_from_display_ensures::<std::io::Error>(&e, shown)
                && head == "Read error: "@ + shown@,
        FsErrorKind::WriteError(e) => exists|shown: String|
            vstd::string::to_string_from_display_ensures::<std::io::Error>(&e, shown)
                && head == "Write error: "@ + shown@,
        FsErrorKind::NotFoundError => head == "Error: file not found: "@,
        FsErrorKind::NotADirectoryError => head == "Error: not a directory: "@,
        FsErrorKind::NotASymlinkError => head == "Error: not a symlink: "@,
    }
}

impl FsError {
    /// The I/O error under this one, if any (what `std::error::Error::source` gives).
    pub fn source(&self) -> (r: Option<&std::io::Error>)
        ensures
            match self.kind_of() {
                FsErrorKind::ReadError(e) => r == Some(&e),
                FsErrorKind::WriteError(e) => r == Some(&e),
                _ => r is None,
            },
    {
        match &self.kind {
            FsErrorKind::ReadError(io_source) | FsErrorKind::WriteError(io_source) => Some(io_source),
            _ => None,
        }
    }

    /// The error as text for the user: what went wrong, the context unless it is empty,
    /// and the path, as in `Read error: <io error>: <context>: from '<path>'.` The texts of
    /// the I/O error and of the path are those that std displays.
    pub fn message(&self) -> (r: String)
        ensures
            exists|head: Seq<char>|
                fserror_head_text(self.kind_of(), head) && r@ == head + context_text(
                    self.context_of()@,
                ) + "from '"@ + display_text(self.path_of()) + "'."@,
    {
        let mut text = String::new();
        match &self.kind {
            FsErrorKind::ReadError(io_err) => {
                text.append("Read error: ");
                let shown = io_err.to_string();
                text.append(shown.as_str());
            },
            FsErrorKind::WriteError(io_err) => {
                text.append("Write error: ");
                let shown = io_err.to_string();
                text.append(shown.as_str());
            },
            FsErrorKind::NotFoundError => text.append("Error: file not found: "),
            FsErrorKind::NotADirectoryError => text.append("Error: not a directory: "),
            FsErrorKind::NotASymlinkError => text.append("Error: not a symlink: "),
        }
        let ghost head = text@;
        if self.context.unicode_len() != 0 {
            text.append(self.context);
            text.append(": ");
        }
        text.append("from '");
        let shown_path = path_display_text(&self.path);
        text.append(shown_path.as_str());
        text.append("'.");
        assert(fserror_head_text(self.kind_of(), head));
        assert(text@ == head + context_text(self.context_of()@) + "from '"@ + shown_path@ + "'."@);
        text
    }
}

/// The type of a file on disk, with one variant for each type that Unix has.
#[derive(Debug, Clone, Copy, PartialEq, Eq, Structural)]
pub enum FileTypeEnum {
    /// A regular file.
    Regular,
    /// A directory.
    Directory,
    /// A symbolic link.
    Symlink,
    /// A block device.
    BlockDevice,
    /// A character device.
    CharDevice,
    /// A named pipe.
    Fifo,
    /// A Unix socket.
    Socket,
}

impl FileTypeEnum {
    /// The name of the variant, as `Debug` shows it.
    pub open spec fn name_text(self) -> Seq<char> {
        match self {
            FileTypeEnum::Regular => "Regular"@,
            FileTypeEnum::Directory => "Directory"@,
            FileTypeEnum::Symlink => "Symlink"@,
            FileTypeEnum::BlockDevice => "BlockDevice"@,
            FileTypeEnum::CharDevice => "CharDevice"@,
            FileTypeEnum::Fifo => "Fifo"@,
            FileTypeEnum::Socket => "Socket"@,
        }
    }

    /// The name of the variant.
    pub fn name(&self) -> (r: String)
        ensures
            r@ == self.name_text(),
    {
        match self {
            FileTypeEnum::Regular => String::from_str("Regular"),
            FileTypeEnum::Directory => String::from_str("Directory"),
            FileTypeEnum::Symlink => String::from_str("Symlink"),
            FileTypeEnum::BlockDevice => String::from_str("BlockDevice"),
            FileTypeEnum::CharDevice => String::from_str("CharDevice"),
            FileTypeEnum::Fifo => String::from_str("Fifo"),
            FileTypeEnum::Socket => String::from_str("Socket"),
        }
    }
}

/// The errors of reading a `FsTree` from, or writing it to, the file system.
#[derive(Debug)]
pub enum Error {
    /// A directory was expected at the path.
    NotADirectory(std::path::PathBuf),
    /// A regular file was expected at the path.
    NotARegularFile(std::path::PathBuf),
    /// A symlink was expected at the path.
    NotASymlink(std::path::PathBuf),
    /// The symlink at `path` points to `found`, not to `expected`.
    SymlinkTargetMismatch {
        /// The path of the symlink.
        path: std::path::PathBuf,
        /// The target that was expected.
        expected: std::path::PathBuf,
        /// The target that was found.
        found: std::path::PathBuf,
    },
    /// A file of a type that a tree cannot hold (a device, a fifo, a socket).
    UnexpectedFileType(FileTypeEnum, std::path::PathBuf),
    /// A read or a write failed.
    Io(std::io::Error),
}

impl Error {
    /// The I/O error under this one, if any (what `std::error::Error::source` gives).
    pub fn source(&self) -> (r: Option<&std::io::Error>)
        ensures
            match self {
                Error::Io(e) => r == Some(e),
                _ => r is None,
            },
    {
        match self {
            Error::Io(source) => Some(source),
            _ => None,
        }
    }

    /// The path that the error is about: every error but `Io` names one.
    pub fn path(&self) -> (r: Option<&std::path::PathBuf>)
        ensures
            match self {
                Error::NotADirectory(p) => r == Some(p),
                Error::NotARegularFile(p) => r == Some(p),
                Error::NotASymlink(p) => r == Some(p),
                Error::SymlinkTargetMismatch { path, .. } => r == Some(path),
                Error::UnexpectedFileType(_, p) => r == Some(p),
                Error::Io(_) => r is None,
            },
    {
        match self {
            Error::NotADirectory(path)
            | Error::NotARegularFile(path)
            | Error::NotASymlink(path)
            | Error::SymlinkTargetMismatch { path, .. }
            | Error::UnexpectedFileType(_, path) => Some(path),
            Error::Io(..) => None,
        }
    }

    /// The error as text for the user, such as `not a directory: <path>`; an I/O error shows
    /// the text of the `std::io::Error`. Paths are shown as `Path::display` shows them, and
    /// a file type by the name of its variant.
    pub fn message(&self) -> (r: String)
        ensures
            match self {
                Error::NotADirectory(p) => r@ == "not a directory: "@ + display_text(*p),
                Error::NotARegularFile(p) => r@ == "not a regular file: "@ + display_text(*p),
                Error::NotASymlink(p) => r@ == "not a symlink: "@ + display_text(*p),
                Error::SymlinkTargetMismatch { path, expected, found } => r@
                    == "symlink target mismatch at "@ + display_text(*path) + ": expected "@
                    + display_text(*expected) + ", found "@ + display_text(*found),
                Error::UnexpectedFileType(t, p) => r@ == "unexpected file type "@ + t.name_text()
                    + ": "@ + display_text(*p),
                Error::Io(e) => vstd::string::to_string_from_display_ensures::<std::io::Error>(
                    e,
                    r,
                ),
            },
    {
        match self {
            Error::NotADirectory(path) => {
                let mut text = String::from_str("not a directory: ");
                let shown = path_display_text(path);
                text.append(shown.as_str());
                text
            },
            Error::NotARegularFile(path) => {
                let mut text = String::from_str("not a regular file: ");
                let shown = path_display_text(path);
                text.append(shown.as_str());
                text
            },
            Error::NotASymlink(path) => {
                let mut text = String::from_str("not a symlink: ");
                let shown = path_display_text(path);
                text.append(shown.as_str());
                text
            },
            Error::SymlinkTargetMismatch { path, expected, found } => {
                let mut text = String::from_str("symlink target mismatch at ");
                let p = path_display_text(path);
                text.append(p.as_str());
                text.append(": expected ");
                let e = path_display_text(expected);
                text.append(e.as_str());
                text.append(", found ");
                let f = path_display_text(found);
                text.append(f.as_str());
                assert(text@ == "symlink target mismatch at "@ + p@ + ": expected "@ + e@ + ", found "@ + f@);
                text
            },
            Error::UnexpectedFileType(file_type, path) => {
                let mut text = String::from_str("unexpected file type ");
                let t = file_type.name();
                text.append(t.as_str());
                text.append(": ");
                let p = path_display_text(path);
                text.append(p.as_str());
                assert(text@ == "unexpected file type "@ + t@ + ": "@ + p@);
                text
            },
            Error::Io(inner) => inner.to_string(),
        }
    }
}

impl From<std::io::Error> for Error {
    fn from(err: std::io::Error) -> (r: Self)
        ensures
            r matches Error::Io(e) && e == err,
    {
        Error::Io(err)
    }
}

impl vstd::std_specs::convert::FromSpecImpl<std::io::Error> for Error {
    open spec fn obeys_from_spec() -> bool {
        true
    }

    open spec fn from_spec(v: std::io::Error) -> Error {
        Error::Io(v)
    }
}

/// The context part of an error's text: nothing for an empty context, else the context
/// and `: `.
pub open spec fn context_text(context: Seq<char>) -> Seq<char> {
    if context.len() == 0 {
        Seq::empty()
    } else {
        context + ": "@
    }
}

} // verus!
