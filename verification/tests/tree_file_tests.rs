use fs_tree::file_structure::FileType;
use fs_tree::path::FsPath;
use fs_tree::tree_file::groups::Groups;
use fs_tree::tree_file::lexer::run_lexer;
use fs_tree::tree_file::parser::{try_parse_tokens, ParserError, ParserErrorKind};

#[test]
fn tree_file_groups_from_text() {
    let text = "// the tree\n\"a\": [\n    \"b\"\n    \"c\"\n]\n\"d\" -> \"e\"\n- [g]\n(x) \"z\"\n";
    let groups = Groups::from_text(text).unwrap();
    assert_eq!(groups.info.groups_order(), &vec!["main".to_string(), "g".to_string()]);
    assert!(groups.info.file_path().is_none());
    assert_eq!(groups.map.len(), 2);
    let main = groups.map.get("main").unwrap();
    assert_eq!(main.len(), 2);
    assert_eq!(main[0].path, FsPath::from_text("a"));
    let kids = main[0].children().unwrap();
    // Children end up in the reverse of the order they were written in.
    assert_eq!(kids[0].path, FsPath::from_text("c"));
    assert_eq!(kids[1].path, FsPath::from_text("b"));
    assert!(main[1].is_symlink());
    match &main[1].file_type {
        FileType::Symlink(target) => assert_eq!(target, &FsPath::from_text("e")),
        _ => panic!("expected a symlink"),
    }
    let g = groups.map.get("g").unwrap();
    assert_eq!(g.len(), 1);
    assert_eq!(g[0].path, FsPath::from_text("z"));
    // The lexer does not read the names in a flag list, so nodes get empty flag lists.
    assert!(g[0].extra.as_ref().unwrap().inner.is_empty());
    assert!(kids[0].extra.as_ref().unwrap().inner.is_empty());
}

#[test]
fn tree_file_groups_append_in_order() {
    let text = "- [g]\n\"x\"\n- [h]\n\"y\"\n- [g]\n\"z\"\n";
    let groups = Groups::from_text(text).unwrap();
    let g = groups.map.get("g").unwrap();
    assert_eq!(g.len(), 2);
    assert_eq!(g[0].path, FsPath::from_text("x"));
    assert_eq!(g[1].path, FsPath::from_text("z"));
    assert_eq!(
        groups.info.groups_order(),
        &vec!["main".to_string(), "g".to_string(), "h".to_string()]
    );
    assert!(groups.map.get("main").unwrap().is_empty());
}

#[test]
fn tree_file_parse_errors() {
    let err = |t: &str| try_parse_tokens(run_lexer(t), t).unwrap().unwrap_err();
    let e = err("\"a\", \"b\"");
    assert_eq!(e.kind(), ParserErrorKind::CommasOutsideOfBrackets);
    assert_eq!((e.line(), e.column()), (1, 3));
    assert_eq!(err("]").kind(), ParserErrorKind::BracketUnexpectedClose);
    assert_eq!(err("[").kind(), ParserErrorKind::BracketUnexpectedOpen);
    let e = err("\"a\": [\n\"b\": [");
    assert_eq!(e.kind(), ParserErrorKind::BracketUnclosed);
    assert_eq!((e.line(), e.column()), (2, 6));
    // Two values in a row, an arrow without a target value, and a lone arrow are not
    // handled.
    assert!(try_parse_tokens(run_lexer("\"a\" \"b\""), "").is_none());
    assert!(try_parse_tokens(run_lexer("\"a\" -> ["), "").is_none());
    assert!(try_parse_tokens(run_lexer("->"), "").is_none());
    assert!(Groups::try_from_text("->").is_none());
    assert!(Groups::try_from_text("]").unwrap().is_err());
}

#[test]
fn tree_file_parser_error_messages() {
    let e = ParserError::new(4, 2, ParserErrorKind::BracketUnclosed);
    assert_eq!(e.message(), "moao tree: bracket at 4:2 is unclosed!");
    let e = ParserError::new(1, 9, ParserErrorKind::GroupAfterGroup);
    assert_eq!(e.message(), "moao tree: moao tree: at 1:9: Group after group problemo");
    let e = ParserError::new(3, 0, ParserErrorKind::FlagAfterFlag);
    assert_eq!(e.message(), "moao tree: moao tree: at 3:0: Flag after flag problemo");
}
