# fs_tree

`FsTree` is a path trie of filesystem nodes (regular files, directories, symlinks), with
the tree formats and the dotfile-linking logic of the `dotao` tool built on it. The library
in `src/` is verified with Verus: every public function carries a contract over a
mathematical model of its data, and the laws that tie the operations together are proved
as proof functions.

Layout:

- `src/fs_tree.rs`, `src/iter.rs`, `src/structure.rs`, `src/tree_node.rs`: the trie, its
  iterators, and structural copies read through probes of the disk; laws in
  `src/fs_tree_laws.rs` and `src/iter_laws.rs`.
- `src/file_tree.rs`, `src/file_structure.rs`: the two recursive file tree types and their
  iterators.
- `src/tsml/`, `src/tree_file/`, `src/lexer.rs`: lexers, parsers (as state machines with a
  model of every step), the serializer and the laws of the two tree file formats.
- `src/diff.rs`, `src/link.rs`, `src/dotfiles.rs`: the decisions of the `status` and `link`
  commands, taken on what the caller found on disk.
- `src/path.rs`, `src/text.rs`, `src/names.rs`, `src/scan.rs`: paths as component lists and
  the text helpers the rest is built from.
- `src/errors.rs`, `src/outside.rs`: error types, their messages, and the few calls into std
  and libc whose contracts are trusted.
- `app/`: the `dotao` command line program, which does the file system work and asks the
  library what to do.
