use fs_tree::file_structure::{File, FileType};
use fs_tree::file_tree::FileTree;
use fs_tree::path::FsPath;
use fs_tree::tsml::groups::{get_file_header, header_for_rewrite, Groups};
use fs_tree::tsml::lexer::{run_lexer, LexToken};
use fs_tree::tsml::parser::{try_parse_tokens, ParserErrorKind};
use fs_tree::tsml::serializer::{can_write, groups_to_tsml};
use fs_tree::tsml::tags::Tags;
use fs_tree::lexer::{text_as_tokens, Token};
use fs_tree::tree_file::lexer as tree_lexer;

fn first_token(text: &str) -> LexToken {
    run_lexer(text).into_iter().next().unwrap().0
}

#[test]
fn lexer_group_regex() {
    assert_eq!(first_token("- [asd]"), LexToken::Group(String::from("asd")));
    assert_eq!(first_token("   -    [asd]"), LexToken::Group(String::from("asd")));
    assert_eq!(first_token("   -[ asd  ]"), LexToken::Group(String::from("asd")));

    let tf = |t: &str| tree_lexer::run_lexer(t).into_iter().next().unwrap().0;
    assert_eq!(tf("- [asd]"), tree_lexer::LexToken::Group(String::from("asd")));
    assert_eq!(tf("   -    [asd]"), tree_lexer::LexToken::Group(String::from("asd")));
    assert_eq!(tf("   -[ asd  ]"), tree_lexer::LexToken::Group(String::from("asd")));

    let tl = |t: &str| text_as_tokens(t).into_iter().next().unwrap().0;
    assert_eq!(tl("- [asd]"), Token::Group(String::from("asd")));
    assert_eq!(tl("   -    [asd]"), Token::Group(String::from("asd")));
    assert_eq!(tl("   -[ asd  ]"), Token::Group(String::from("asd")));
}

#[test]
fn lexer_separator_regex() {
    assert_eq!(first_token("\n"), LexToken::Separator('\n'));
    assert_eq!(first_token(","), LexToken::Separator(','));

    let tf = |t: &str| tree_lexer::run_lexer(t).into_iter().next().unwrap().0;
    assert_eq!(tf("\n"), tree_lexer::LexToken::Separator('\n'));
    assert_eq!(tf(","), tree_lexer::LexToken::Separator(','));

    let tl = |t: &str| text_as_tokens(t).into_iter().next().unwrap().0;
    assert_eq!(tl("\n"), Token::Separator);
    assert_eq!(tl(","), Token::Separator);
}

#[test]
fn testing_macros() {
    let p = FsPath::from_text;
    let file: File<()> = File::new(
        p("root"),
        FileType::Directory(vec![
            File::new(p("file1"), FileType::Regular),
            File::new(p("file2"), FileType::Regular),
            File::new(
                p("inner_dir"),
                FileType::Directory(vec![
                    File::new(p("more_file1"), FileType::Regular),
                    File::new(p("more_file2"), FileType::Regular),
                ]),
            ),
            File::new(p("file3"), FileType::Regular),
        ]),
    );

    let expected = File::<()>::new(
        p("root"),
        FileType::Directory(vec![
            File::new(p("file1"), FileType::Regular),
            File::new(p("file2"), FileType::Regular),
            File::new(
                p("inner_dir"),
                FileType::Directory(vec![
                    File::new(p("more_file1"), FileType::Regular),
                    File::new(p("more_file2"), FileType::Regular),
                ]),
            ),
            File::new(p("file3"), FileType::Regular),
        ]),
    );

    assert_eq!(file, expected);
}

// Own tests.

#[test]
fn lexer_tokens_and_spans() {
    let toks = run_lexer("\"a\" -> \"b\" // note\n(x, y)[é]:");
    let kinds: Vec<&LexToken> = toks.iter().map(|t| &t.0).collect();
    assert_eq!(
        kinds,
        vec![
            &LexToken::Value("a".to_string()),
            &LexToken::SymlinkArrow,
            &LexToken::Value("b".to_string()),
            &LexToken::Separator('\n'),
            &LexToken::Tags(vec!["x".to_string(), "y".to_string()]),
            &LexToken::OpenBracket,
            &LexToken::LexError,
            &LexToken::CloseBracket,
            &LexToken::DoubleDots,
        ]
    );
    // Byte ranges: "é" takes two bytes.
    assert_eq!(toks[0].1, 0..3);
    assert_eq!(toks[1].1, 4..6);
    assert_eq!(toks[3].1, 18..19);
    assert_eq!(toks[6].1, 26..28);
    assert_eq!(toks[7].1, 28..29);
    assert_eq!(first_token(">"), LexToken::SymlinkArrow);
    assert_eq!(first_token("\"\""), LexToken::LexError);
}

#[test]
fn tree_file_lexer_differences() {
    let kinds: Vec<tree_lexer::LexToken> =
        tree_lexer::run_lexer("(a) // c\n>\t\"v\"").into_iter().map(|t| t.0).collect();
    assert_eq!(
        kinds,
        vec![
            tree_lexer::LexToken::Flags(vec![]),
            tree_lexer::LexToken::LexError,
            tree_lexer::LexToken::Value("v".to_string()),
        ]
    );
}

fn sample() -> &'static str {
    "// header\n\n\"a\": [\n    \"b\"\n    \"c\"\n]\n\"d\" > \"e\"\n- [g]\n(t1, t2) \"x\"\n"
}

#[test]
fn parse_groups_and_order() {
    let groups = Groups::from_text(sample()).unwrap();
    assert_eq!(groups.info.groups_order, vec!["main".to_string(), "g".to_string()]);
    assert_eq!(groups.info.file_header, "// header".to_string());
    let main = groups.map.get("main").unwrap();
    assert_eq!(main.len(), 2);
    let kids = main[0].children().unwrap();
    // Children end up in the reverse of the order they were written in.
    assert_eq!(kids[0].path(), &FsPath::from_text("c"));
    assert_eq!(kids[1].path(), &FsPath::from_text("b"));
    assert_eq!(main[1].target(), Some(&FsPath::from_text("e")));
    let g = groups.map.get("g").unwrap();
    let tags = g[0].extra().as_ref().unwrap();
    assert!(tags.direct_tags.contains("t1"));
    assert!(tags.direct_tags.contains("t2"));
    assert_eq!(tags.direct_tags.len(), 2);
}

#[test]
fn parse_passes_tags_down() {
    let text = "(gt)\n- [grp]\n(p) \"dir\": [\n    \"kid\": [\n        \"leaf\"\n    ]\n]\n";
    let groups = Groups::from_text(text).unwrap();
    let trees = groups.map.get("grp").unwrap();
    let dir = &trees[0];
    let dir_tags = dir.extra().as_ref().unwrap();
    assert!(dir_tags.group_tags.contains("gt"));
    assert!(dir_tags.direct_tags.contains("p"));
    let kid = &dir.children().unwrap()[0];
    let kid_tags = kid.extra().as_ref().unwrap();
    assert!(kid_tags.ancestor_tags.contains("p"));
    assert!(kid_tags.group_tags.contains("gt"));
    let leaf = &kid.children().unwrap()[0];
    assert!(leaf.extra().as_ref().unwrap().ancestor_tags.contains("p"));
}

#[test]
fn parse_errors() {
    let err = |t: &str| try_parse_tokens(run_lexer(t), t).unwrap().unwrap_err();
    assert_eq!(err("\"a\" [\n]\n]").kind(), ParserErrorKind::BracketUnexpectedClose);
    assert_eq!(err("[").kind(), ParserErrorKind::BracketUnexpectedOpen);
    assert_eq!(err("\"a\", \"b\"").kind(), ParserErrorKind::CommasOutsideOfBrackets);
    assert_eq!(err("\"a\" -> [").kind(), ParserErrorKind::MissingSymlinkTarget);
    assert_eq!(err("(a)(b)").kind(), ParserErrorKind::TagAfterTag);
    let e = err("\"a\": [\n\"b\": [");
    assert_eq!(e.kind(), ParserErrorKind::BracketUnclosed);
    assert_eq!((e.line(), e.column()), (2, 6));
    // Two values in a row, or a group header not followed by a line break, are not
    // handled.
    assert!(try_parse_tokens(run_lexer("\"a\" \"b\""), "").is_none());
    assert!(try_parse_tokens(run_lexer("- [g] \"a\""), "").is_none());
}

#[test]
fn serializer_writes_groups() {
    let text = "\"a\": [\n    \"b\"\n    \"c\"\n]\n\"d\" > \"e\"\n- [g]\n(t2, t1) \"x\"\n";
    let groups = Groups::from_text(text).unwrap();
    let out = groups_to_tsml(&groups);
    assert_eq!(
        out,
        "- [g]\n(t1, t2) \"x\"\n\n\"a\": [\n    \"c\"\n    \"b\"\n]\n\"d\" > \"e\"\n"
    );
}

#[test]
fn file_header_lines() {
    assert_eq!(get_file_header("// a\r\n\n// b\nx\n// c"), "// a// b");
    assert_eq!(get_file_header(""), "");
    assert_eq!(get_file_header("x"), "");
}

#[test]
fn tags_inherit() {
    let mut parent = Tags::new();
    assert!(parent.add_direct_tag("d"));
    assert!(!parent.add_direct_tag("d"));
    parent.add_group_tag("g");
    parent.add_ancestor_tag("a");
    let mut child = Tags::new();
    child.add_direct_tag("own");
    child.inherit_from(&parent);
    assert!(child.direct_tags.contains("own") && !child.direct_tags.contains("d"));
    assert!(child.ancestor_tags.contains("d") && child.ancestor_tags.contains("a"));
    assert!(child.group_tags.contains("g"));
}

#[test]
fn file_tree_from_path_text_holds_full_paths() {
    let t: FileTree<()> = FileTree::from_path_text("a/b/c");
    assert!(t.is_dir());
    assert_eq!(t.path(), &FsPath::from_text("a"));
    let b = &t.children().unwrap()[0];
    assert_eq!(b.path(), &FsPath::from_text("a/b"));
    let c = &b.children().unwrap()[0];
    assert!(c.is_regular());
    assert_eq!(c.path(), &FsPath::from_text("a/b/c"));
    let single: FileTree<()> = FileTree::from_path_text("x");
    assert_eq!(single, FileTree::new_regular(FsPath::from_text("x")));
    let mut it = t.files();
    assert_eq!(it.next().map(|f| f.path().clone()), Some(FsPath::from_text("a")));
    assert_eq!(it.depth(), 0);
    assert_eq!(it.next().map(|f| f.path().clone()), Some(FsPath::from_text("a/b")));
    assert_eq!(it.depth(), 1);
    assert_eq!(it.next().map(|f| f.path().clone()), Some(FsPath::from_text("a/b/c")));
    assert_eq!(it.depth(), 2);
    assert!(it.next().is_none());
    assert_eq!(it.depth(), 2);
}

#[test]
fn file_from_text_and_paths() {
    let file = File::<()>::from_text("a/b/c");
    assert!(file.is_dir());
    assert_eq!(file.children().unwrap().len(), 1);
    assert_eq!(file.children().unwrap()[0].path, FsPath::from_text("b"));
    let mut paths = file.paths();
    assert_eq!(paths.next(), Some(FsPath::from_text("a")));
    assert_eq!(paths.next(), Some(FsPath::from_text("a/b")));
    assert_eq!(paths.next(), Some(FsPath::from_text("a/b/c")));
    assert_eq!(paths.next(), None);
    let mut last = file.paths().only_show_last_segment(true);
    assert_eq!(last.next(), Some(FsPath::from_text("a")));
    assert_eq!(last.next(), Some(FsPath::from_text("b")));
}

#[test]
fn first_format_lexer_skips_only_space_tab() {
    let kinds: Vec<Token> = text_as_tokens("\"a\" \t-> \"b\" x").into_iter().map(|t| t.0).collect();
    assert_eq!(
        kinds,
        vec![
            Token::Value("a".to_string()),
            Token::SymlinkArrow,
            Token::Error,
            Token::Value("b".to_string()),
            Token::Error,
            Token::Error,
        ]
    );
}

#[test]
fn file_header_rewrite() {
    assert_eq!(header_for_rewrite("// a// b"), "// a// b");
    assert_eq!(header_for_rewrite("x\n\n"), "x\n");
    assert_eq!(header_for_rewrite(""), "");
}

#[test]
fn can_write_checks_names() {
    let groups = Groups::from_text(sample()).unwrap();
    assert!(can_write(&groups));
    let mut other = Groups::from_text("\"a\"\n").unwrap();
    let unnamed: FileTree<Tags> = FileTree::regular_default();
    other.map.set_files("main".to_string(), vec![unnamed]);
    assert!(!can_write(&other));
}

#[test]
fn apply_to_children0_maps_direct_children() {
    let mut tree = FileTree::<()>::new_directory(
        FsPath::from_text("d"),
        vec![
            FileTree::new_regular(FsPath::from_text("a")),
            FileTree::new_directory(FsPath::from_text("b"), vec![FileTree::new_regular(FsPath::from_text("b/c"))]),
        ],
    );
    let renamed = |t: FileTree<()>| {
        let mut p = t.path().copy();
        p.push_piece("x".to_string());
        FileTree::new_regular(p)
    };
    tree.apply_to_children0(&renamed);
    assert_eq!(tree.path(), &FsPath::from_text("d"));
    let kids = tree.children().unwrap();
    assert_eq!(kids.len(), 2);
    assert_eq!(kids[0].path(), &FsPath::from_text("a/x"));
    assert_eq!(kids[1].path(), &FsPath::from_text("b/x"));
    assert!(kids[1].is_regular());
    let mut leaf = FileTree::<()>::new_regular(FsPath::from_text("r"));
    leaf.apply_to_children0(&renamed);
    assert_eq!(leaf.path(), &FsPath::from_text("r"));
}

#[test]
fn apply_to_all_children1_treats_every_descendant() {
    let mut tree = FileTree::<()>::new_directory(
        FsPath::from_text("d"),
        vec![
            FileTree::new_regular(FsPath::from_text("a")),
            FileTree::new_directory(FsPath::from_text("b"), vec![FileTree::new_regular(FsPath::from_text("b/c"))]),
        ],
    );
    let renamed = |t: FileTree<()>| {
        if t.is_regular() {
            let mut p = t.path().copy();
            p.push_piece("x".to_string());
            FileTree::new_regular(p)
        } else {
            t
        }
    };
    tree.apply_to_all_children1(&renamed);
    assert_eq!(tree.path(), &FsPath::from_text("d"));
    let kids = tree.children().unwrap();
    assert_eq!(kids.len(), 2);
    assert_eq!(kids[0].path(), &FsPath::from_text("a/x"));
    assert_eq!(kids[1].path(), &FsPath::from_text("b"));
    let grandkids = kids[1].children().unwrap();
    assert_eq!(grandkids.len(), 1);
    assert_eq!(grandkids[0].path(), &FsPath::from_text("b/c/x"));
    let mut leaf = FileTree::<()>::new_regular(FsPath::from_text("r"));
    leaf.apply_to_all_children1(&renamed);
    assert_eq!(leaf.path(), &FsPath::from_text("r"));
    assert!(leaf.is_regular());
}

#[test]
fn apply_to_all_treats_the_root_and_every_descendant() {
    let mut tree = FileTree::<()>::new_directory(
        FsPath::from_text("d"),
        vec![
            FileTree::new_regular(FsPath::from_text("a")),
            FileTree::new_directory(FsPath::from_text("b"), vec![FileTree::new_regular(FsPath::from_text("b/c"))]),
        ],
    );
    let marked = |t: FileTree<()>| match t {
        FileTree::Directory { path, extra, children } => {
            let mut p = path.copy();
            p.push_piece("x".to_string());
            FileTree::Directory { path: p, extra, children }
        },
        FileTree::Regular { path, extra } => {
            let mut p = path.copy();
            p.push_piece("y".to_string());
            FileTree::Regular { path: p, extra }
        },
        other => other,
    };
    tree.apply_to_all(&marked);
    assert_eq!(tree.path(), &FsPath::from_text("d/x"));
    let kids = tree.children().unwrap();
    assert_eq!(kids.len(), 2);
    assert_eq!(kids[0].path(), &FsPath::from_text("a/y"));
    assert_eq!(kids[1].path(), &FsPath::from_text("b/x"));
    let grandkids = kids[1].children().unwrap();
    assert_eq!(grandkids[0].path(), &FsPath::from_text("b/c/y"));
    // A closure that turns a directory into a file stops the walk there.
    let mut other = FileTree::<()>::new_directory(FsPath::from_text("e"), vec![FileTree::new_regular(FsPath::from_text("e/f"))]);
    other.apply_to_all(&|t: FileTree<()>| FileTree::new_regular(t.path().copy()));
    assert!(other.is_regular());
    assert_eq!(other.path(), &FsPath::from_text("e"));
}
