use std::io;
use std::path::PathBuf;

use fs_tree::diff::{StatusAction, StatusDiff, StatusEvent};
use fs_tree::file_structure::FileType;
use fs_tree::errors::{Error, FileTypeEnum, FsError, FsErrorKind, FtError, FtErrorKind};
use fs_tree::path::FsPath;
use fs_tree::tree_file::TreeFileError;
use fs_tree::tsml::error::{TokenPosition, TsmlError};
use fs_tree::tsml::groups::Groups;
use fs_tree::tsml::parser::{ParserError, ParserErrorKind};

#[test]
fn status_checks_pair_trees_with_group_names() {
    let text = "\"a\"\n\"d\" > \"e\"\n- [g]\n\"x\": [\n    \"y\"\n]\n\"z\"\n";
    let groups = Groups::from_text(text).unwrap();
    let backup = FsPath::from_text("/home/u");
    let checks = StatusDiff::checks(&groups.map, &backup);
    // Trees of all groups, in name order: x, z (group g), a, d (group main); only the first
    // two are paired with a name, and only nodes that are not directories are checked.
    assert_eq!(checks.len(), 2);
    assert_eq!(checks[0].file, FsPath::from_text("y"));
    assert_eq!(checks[0].group, "g");
    assert_eq!(checks[0].source, FsPath::from_text("g/y"));
    assert_eq!(checks[0].destination, FsPath::from_text("/home/u/y"));
    assert!(checks[0].regular);
    assert_eq!(checks[1].file, FsPath::from_text("z"));
    assert_eq!(checks[1].group, "main");
    assert_eq!(checks[1].source, FsPath::from_text("main/z"));
    assert_eq!(checks[1].destination, FsPath::from_text("/home/u/z"));
}

#[test]
fn status_check_of_a_symlink_fails() {
    let groups = Groups::from_text("\"d\" > \"e\"\n").unwrap();
    let checks = StatusDiff::checks(&groups.map, &FsPath::from_text("/h"));
    assert_eq!(checks.len(), 1);
    assert!(!checks[0].regular);
    let mut diff = StatusDiff::new();
    assert_eq!(diff.step(&checks[0], StatusEvent::Start), StatusAction::FailNotRegular);
}

#[test]
fn status_steps_record_what_was_found() {
    let groups = Groups::from_text("- [g]\n\"f\"\n").unwrap();
    let checks = StatusDiff::checks(&groups.map, &FsPath::from_text("/h"));
    let check = &checks[0];
    let mut diff = StatusDiff::new();
    assert!(diff.is_clear());

    assert_eq!(diff.step(check, StatusEvent::Start), StatusAction::CheckSource);
    assert_eq!(diff.step(check, StatusEvent::SourceExists(true)), StatusAction::CheckDestination);
    assert_eq!(
        diff.step(check, StatusEvent::DestinationExists(true)),
        StatusAction::ReadDestinationType
    );
    assert_eq!(
        diff.step(check, StatusEvent::DestinationType(FileTypeEnum::Symlink)),
        StatusAction::ReadLink
    );
    assert!(diff.is_clear());

    assert_eq!(diff.step(check, StatusEvent::DestinationExists(false)), StatusAction::Next);
    assert_eq!(diff.ready_to_link, vec![(FsPath::from_text("f"), FsPath::from_text("g"))]);
    assert!(diff.is_clear());

    assert_eq!(diff.step(check, StatusEvent::SourceExists(false)), StatusAction::Next);
    assert_eq!(diff.missing_source, vec![FsPath::from_text("f")]);
    assert!(!diff.is_clear());

    assert_eq!(
        diff.step(check, StatusEvent::DestinationType(FileTypeEnum::Fifo)),
        StatusAction::Next
    );
    assert_eq!(diff.not_a_symlink, vec![(FsPath::from_text("f"), FileTypeEnum::Fifo)]);

    assert_eq!(diff.step(check, StatusEvent::DestinationUnreadable(true)), StatusAction::Next);
    assert_eq!(diff.no_permission_to_link_to_target, vec![FsPath::from_text("f")]);
    assert_eq!(diff.step(check, StatusEvent::DestinationUnreadable(false)), StatusAction::FailScan);
    assert_eq!(diff.no_permission_to_link_to_target.len(), 1);
    assert!(diff.linked_correctly.is_empty());
    assert!(diff.linked_incorrectly.is_empty());
}

#[test]
fn parser_error_messages() {
    let e = ParserError::new(3, 5, ParserErrorKind::BracketUnclosed);
    assert_eq!(e.message(), "moao tree: bracket at 3:5 is unclosed!");
    let e = ParserError::new(12, 0, ParserErrorKind::CommasOutsideOfBrackets);
    assert_eq!(e.message(), "moao tree: moao tree: at 12:0: no commas alowed outsite of scopes");
    let e = ParserError::new(1, 40, ParserErrorKind::TagAfterTag);
    assert_eq!(e.message(), "moao tree: moao tree: at 1:40: Flag after flag problemo");
}

#[test]
fn tsml_error_messages() {
    assert_eq!(TsmlError::LexerError.message(), "tsml: lexer error");
    assert_eq!(TsmlError::Other.message(), "tsml: other error");
    assert_eq!(TsmlError::PathWithoutName.message(), "tsml: found an empty (thus invalid) path");
    let e = TsmlError::ParserError(
        TokenPosition { line: 2, column: 17 },
        ParserErrorKind::BracketUnexpectedClose,
    );
    assert_eq!(
        e.message(),
        "tsml: parser error at 2:17: unexpected close brackets, what are you closing?"
    );
    let e = TsmlError::ParserError(TokenPosition { line: 9, column: 1 }, ParserErrorKind::BracketUnclosed);
    assert_eq!(e.message(), "tsml: parser error at 9:1: unclosed brackets");
    let e = TsmlError::from(io::Error::new(io::ErrorKind::Other, "boom"));
    assert_eq!(e.message(), "tsml: Io error: boom");
    let e = TsmlError::NonUtf8Path(PathBuf::from("a/b"));
    assert_eq!(e.message(), "tsml: found a path name that is invalid UTF-8: a/b");
}

#[test]
fn file_error_messages() {
    let e = FtError::new(FtErrorKind::NotFoundError, PathBuf::from("x/y"), "while reading");
    assert_eq!(e.message(), "Error: file not found: while reading: from 'x/y'.");
    let e = FtError::new(FtErrorKind::NotASymlinkError, PathBuf::from("x"), "");
    assert_eq!(e.message(), "Error: not a symlink: from 'x'.");
    let e = FtError::new(
        FtErrorKind::ReadError(io::Error::new(io::ErrorKind::Other, "denied")),
        PathBuf::from("p"),
        "",
    );
    // No separator stands between the I/O error and the path.
    assert_eq!(e.message(), "Read error: deniedfrom 'p'.");
    let e = FsError::new(FsErrorKind::NotADirectoryError, PathBuf::from("/d"), "ctx");
    assert_eq!(e.message(), "Error: not a directory: ctx: from '/d'.");
    let e = FsError::new(
        FsErrorKind::WriteError(io::Error::new(io::ErrorKind::Other, "full")),
        PathBuf::from("w"),
        "",
    );
    assert_eq!(e.message(), "Write error: fullfrom 'w'.");
}

#[test]
fn fs_tree_error_paths_and_messages() {
    let e = Error::NotADirectory(PathBuf::from("a/b"));
    assert_eq!(e.path(), Some(&PathBuf::from("a/b")));
    assert_eq!(e.message(), "not a directory: a/b");
    let e = Error::NotARegularFile(PathBuf::from("r"));
    assert_eq!(e.message(), "not a regular file: r");
    let e = Error::NotASymlink(PathBuf::from("s"));
    assert_eq!(e.message(), "not a symlink: s");
    let e = Error::SymlinkTargetMismatch {
        path: PathBuf::from("l"),
        expected: PathBuf::from("t1"),
        found: PathBuf::from("t2"),
    };
    assert_eq!(e.path(), Some(&PathBuf::from("l")));
    assert_eq!(e.message(), "symlink target mismatch at l: expected t1, found t2");
    let e = Error::UnexpectedFileType(FileTypeEnum::Socket, PathBuf::from("sock"));
    assert_eq!(e.path(), Some(&PathBuf::from("sock")));
    assert_eq!(e.message(), "unexpected file type Socket: sock");
    let e = Error::from(io::Error::new(io::ErrorKind::Other, "io went wrong"));
    assert!(e.path().is_none());
    assert_eq!(e.message(), "io went wrong");
}

#[test]
fn file_type_names() {
    assert_eq!(FileTypeEnum::BlockDevice.name(), "BlockDevice");
    assert_eq!(FileTypeEnum::CharDevice.name(), "CharDevice");
    assert_eq!(FileTypeEnum::Directory.name(), "Directory");
    assert_eq!(format!("{:?}", FileTypeEnum::Fifo), FileTypeEnum::Fifo.name());
}

#[test]
fn tree_file_error_messages() {
    assert_eq!(TreeFileError::LexerError.message(), "tree file: lexer error.");
    assert_eq!(TreeFileError::ParserError.message(), "tree file: parser error.");
    assert_eq!(TreeFileError::Other.message(), "tree file: other error.");
}

#[test]
fn error_sources() {
    let e = TsmlError::from(io::Error::new(io::ErrorKind::Other, "x"));
    assert_eq!(e.source().unwrap().to_string(), "x");
    assert!(TsmlError::Other.source().is_none());
    let e = FtError::new(FtErrorKind::WriteError(io::Error::new(io::ErrorKind::Other, "w")), PathBuf::new(), "");
    assert_eq!(e.source().unwrap().to_string(), "w");
    assert!(FsError::new(FsErrorKind::NotFoundError, PathBuf::new(), "").source().is_none());
    assert!(Error::NotASymlink(PathBuf::new()).source().is_none());
    assert_eq!(Error::from(io::Error::new(io::ErrorKind::Other, "i")).source().unwrap().to_string(), "i");
    assert_eq!(FileType::<()>::Regular.display_text(), "file");
    assert_eq!(FileType::<()>::Directory(vec![]).display_text(), "directory");
    assert_eq!(FileType::<()>::Symlink(FsPath::from_text("t")).display_text(), "symbolic link");
}
