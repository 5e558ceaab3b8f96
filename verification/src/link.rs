//! Planning the links from a home directory to the dotfiles of each group.
use vstd::prelude::*;

use crate::dotfiles::DotfileGroup;
use crate::file_tree::FileTree;
use crate::path::{joined, FsPath};

verus! {

/// How linking treats what is already at a destination.
#[derive(Debug, Default, Clone, Copy, PartialEq, Eq, Structural)]
pub struct LinkBehavior {
    pub interactive_mode: bool,
    pub overwrite_files: bool,
    pub overwrite_directories: bool,
    pub overwrite_symbolic_links: bool,
}

impl LinkBehavior {
    /// A behavior from its four settings.
    pub fn new(
        interactive_mode: bool,
        overwrite_files: bool,
        overwrite_directories: bool,
        overwrite_symbolic_links: bool,
    ) -> (r: Self)
        ensures
            r == (LinkBehavior {
                interactive_mode,
                overwrite_files,
                overwrite_directories,
                overwrite_symbolic_links,
            }),
    {
        LinkBehavior {
            interactive_mode,
            overwrite_files,
            overwrite_directories,
            overwrite_symbolic_links,
        }
    }
}

/// The kind of a file to delete.
#[derive(Debug, Clone, Copy, PartialEq, Eq, Structural)]
pub enum FileKind {
    Regular,
    Directory,
    Symlink,
}

/// The links to make (source, destination) and the files to delete first.
#[derive(Default, Debug)]
pub struct LinkPayload {
    links: Vec<(FsPath, FsPath)>,
    deletes: Vec<(FsPath, FileKind)>,
}

impl LinkPayload {
    /// The links to make, as (source, destination).
    pub closed spec fn links_of(self) -> Seq<(Seq<Seq<char>>, Seq<Seq<char>>)> {
        self.links@.map_values(|l: (FsPath, FsPath)| (l.0@, l.1@))
    }

    /// The files to delete, with their kinds.
    pub closed spec fn deletes_of(self) -> Seq<(Seq<Seq<char>>, FileKind)> {
        self.deletes@.map_values(|d: (FsPath, FileKind)| (d.0@, d.1))
    }

    /// The links to make, as (source, destination).
    pub fn links(&self) -> (r: &[(FsPath, FsPath)])
        ensures
            r@.len() == self.links_of().len(),
            forall|i: int|
                0 <= i < r@.len() ==> (#[trigger] r@[i].0@, r@[i].1@) == self.links_of()[i],
    {
        self.links.as_slice()
    }

    /// The files to delete, with their kinds.
    pub fn deletes(&self) -> (r: &[(FsPath, FileKind)])
        ensures
            r@.len() == self.deletes_of().len(),
            forall|i: int| 0 <= i < r@.len() ==> (#[trigger] r@[i].0@, r@[i].1) == self.deletes_of()[i],
    {
        self.deletes.as_slice()
    }

    /// Nothing to do.
    pub fn new() -> (r: Self)
        ensures
            r.links_of().len() == 0,
            r.deletes_of().len() == 0,
    {
        LinkPayload { links: Vec::new(), deletes: Vec::new() }
    }
}

/// A destination that linking would have to overwrite and may not: the source and the
/// destination.
#[derive(Debug)]
pub struct LinkConflict {
    pub source_path: FsPath,
    pub destination_path: FsPath,
}

/// What is found at a destination path, without following a symlink there.
#[derive(Debug)]
pub enum Destination {
    Missing,
    Regular,
    Directory,
    Symlink(FsPath),
}

/// What to do after planning one file.
#[derive(Debug, Clone, Copy, PartialEq, Eq, Structural)]
pub enum LinkStep {
    /// Go on with the next file.
    Done,
    /// The destination is a directory: plan each child of the source directory.
    Descend,
    /// The file cannot be linked (a symlink in the source, a directory over a file, or a
    /// symlink that may not be overwritten): linking stops.
    Abort,
}

/// The groups to link, the plan, the behavior, what went wrong (as messages) and the
/// conflicts found.
#[derive(Default, Debug)]
pub struct LinkInformation {
    pub groups: Vec<DotfileGroup>,
    pub payload: LinkPayload,
    pub link_behavior: LinkBehavior,
    pub errors: Vec<String>,
    pub conflicts: Vec<LinkConflict>,
}

impl LinkInformation {
    /// No groups, an empty plan, the default behavior, no errors.
    pub fn new() -> (r: Self)
        ensures
            r.groups@.len() == 0,
            r.payload.links_of().len() == 0,
            r.payload.deletes_of().len() == 0,
            r.link_behavior == LinkBehavior::default_spec(),
            r.errors@.len() == 0,
            r.conflicts@.len() == 0,
    {
        LinkInformation {
            errors: Vec::new(),
            groups: Vec::new(),
            payload: LinkPayload::new(),
            link_behavior: LinkBehavior::new(false, false, false, false),
            conflicts: Vec::new(),
        }
    }

    /// Sets the behavior.
    pub fn configure_behavior(&mut self, link_behavior: LinkBehavior)
        ensures
            final(self).link_behavior == link_behavior,
            final(self).groups == old(self).groups,
            final(self).payload == old(self).payload,
            final(self).errors == old(self).errors,
            final(self).conflicts == old(self).conflicts,
    {
        self.link_behavior = link_behavior;
    }

    /// Adds a group to link.
    pub fn add_group(&mut self, group: DotfileGroup)
        ensures
            final(self).groups@ == old(self).groups@.push(group),
            final(self).link_behavior == old(self).link_behavior,
            final(self).payload == old(self).payload,
            final(self).errors == old(self).errors,
            final(self).conflicts == old(self).conflicts,
    {
        self.groups.push(group);
    }

    /// Whether an error was recorded.
    pub fn critical_error_occurred(&self) -> (r: bool)
        ensures
            r == (self.errors@.len() > 0),
    {
        self.errors.len() > 0
    }
}

impl LinkBehavior {
    /// The default behavior: everything off.
    pub open spec fn default_spec() -> LinkBehavior {
        LinkBehavior {
            interactive_mode: false,
            overwrite_files: false,
            overwrite_directories: false,
            overwrite_symbolic_links: false,
        }
    }
}

/// The kind of a source file.
pub open spec fn kind_of(file: FileTree<()>) -> FileKind {
    match file {
        FileTree::Regular { .. } => FileKind::Regular,
        FileTree::Directory { .. } => FileKind::Directory,
        FileTree::Symlink { .. } => FileKind::Symlink,
    }
}

impl LinkInformation {
    /// A regular file stands at `destination_path`: when files may be overwritten, plan to
    /// delete it and to link `source_path` there; otherwise record a conflict.
    fn link_check_for_regular_file(&mut self, source_path: FsPath, destination_path: FsPath)
        ensures
            final(self).groups == old(self).groups,
            final(self).link_behavior == old(self).link_behavior,
            final(self).errors == old(self).errors,
            old(self).link_behavior.overwrite_files ==> {
                &&& final(self).payload.links_of() == old(self).payload.links_of().push(
                    (source_path@, destination_path@),
                )
                &&& final(self).payload.deletes_of() == old(self).payload.deletes_of().push(
                    (destination_path@, FileKind::Regular),
                )
                &&& final(self).conflicts@ == old(self).conflicts@
            },
            !old(self).link_behavior.overwrite_files ==> {
                &&& final(self).payload.links_of() == old(self).payload.links_of()
                &&& final(self).payload.deletes_of() == old(self).payload.deletes_of()
                &&& final(self).conflicts@.len() == old(self).conflicts@.len() + 1
                &&& final(self).conflicts@.drop_last() == old(self).conflicts@
                &&& final(self).conflicts@.last().source_path@ == source_path@
                &&& final(self).conflicts@.last().destination_path@ == destination_path@
            },
    {
        if self.link_behavior.overwrite_files {
            self.payload.deletes.push((destination_path.copy(), FileKind::Regular));
            self.payload.links.push((source_path, destination_path));
        } else {
            self.conflicts.push(LinkConflict { source_path, destination_path });
        }
    }

    /// A symlink to `current` stands at `destination_path`: nothing to do when it already
    /// points to `source_path`; otherwise, when symlinks may be overwritten, plan to delete
    /// it (recorded with the source's kind `kind`) and to link `source_path` there; else
    /// abort.
    fn link_check_for_symlink(
        &mut self,
        source_path: FsPath,
        destination_path: FsPath,
        kind: FileKind,
        current: &FsPath,
    ) -> (r: LinkStep)
        ensures
            final(self).groups == old(self).groups,
            final(self).link_behavior == old(self).link_behavior,
            final(self).errors == old(self).errors,
            final(self).conflicts@ == old(self).conflicts@,
            current@ == source_path@ ==> r == LinkStep::Done && final(self).payload.links_of()
                == old(self).payload.links_of() && final(self).payload.deletes_of() == old(
                self,
            ).payload.deletes_of(),
            current@ != source_path@ && old(self).link_behavior.overwrite_symbolic_links ==> {
                &&& r == LinkStep::Done
                &&& final(self).payload.links_of() == old(self).payload.links_of().push(
                    (source_path@, destination_path@),
                )
                &&& final(self).payload.deletes_of() == old(self).payload.deletes_of().push(
                    (destination_path@, kind),
                )
            },
            current@ != source_path@ && !old(self).link_behavior.overwrite_symbolic_links ==> r
                == LinkStep::Abort && final(self).payload.links_of() == old(self).payload.links_of()
                && final(self).payload.deletes_of() == old(self).payload.deletes_of(),
    {
        if current.same_as(&source_path) {
            LinkStep::Done
        } else if self.link_behavior.overwrite_symbolic_links {
            self.payload.deletes.push((destination_path.copy(), kind));
            self.payload.links.push((source_path, destination_path));
            LinkStep::Done
        } else {
            LinkStep::Abort
        }
    }

    /// Plans the link for the source file `file` at `source_path` to `destination_path`,
    /// given what is found there:
    /// - nothing: link it;
    /// - anything, while the source is a symlink: abort;
    /// - a regular file: delete it and link if files may be overwritten, else record a
    ///   conflict;
    /// - a directory: descend into a source directory, abort for a regular file;
    /// - a symlink: nothing to do if it already points to the source; else delete it
    ///   (recorded with the source's kind) and link if symlinks may be overwritten, else
    ///   abort.
    pub fn plan_file(
        &mut self,
        source_path: FsPath,
        destination_path: FsPath,
        file: &FileTree<()>,
        found: Destination,
    ) -> (r: LinkStep)
        ensures
            final(self).groups == old(self).groups,
            final(self).link_behavior == old(self).link_behavior,
            final(self).errors == old(self).errors,
            ({
                let links = old(self).payload.links_of();
                let deletes = old(self).payload.deletes_of();
                let conflicts = old(self).conflicts@;
                let link = (source_path@, destination_path@);
                let after = final(self).payload;
                let unchanged = after.links_of() == links && after.deletes_of() == deletes
                    && final(self).conflicts@ == conflicts;
                match found {
                    Destination::Missing => r == LinkStep::Done && after.links_of() == links.push(
                        link,
                    ) && after.deletes_of() == deletes && final(self).conflicts@ == conflicts,
                    _ => if *file is Symlink {
                        r == LinkStep::Abort
                    } else {
                        match found {
                            Destination::Regular => r == LinkStep::Done && if old(
                                self,
                            ).link_behavior.overwrite_files {
                                after.links_of() == links.push(link) && after.deletes_of()
                                    == deletes.push((destination_path@, FileKind::Regular))
                                    && final(self).conflicts@ == conflicts
                            } else {
                                after.links_of() == links && after.deletes_of() == deletes
                                    && final(self).conflicts@.len() == conflicts.len() + 1
                                    && final(self).conflicts@.drop_last() == conflicts
                                    && final(self).conflicts@.last().source_path@ == source_path@
                                    && final(self).conflicts@.last().destination_path@
                                    == destination_path@
                            },
                            Destination::Directory => if *file is Regular {
                                r == LinkStep::Abort
                            } else {
                                r == LinkStep::Descend && unchanged
                            },
                            Destination::Symlink(target) => if target@ == source_path@ {
                                r == LinkStep::Done && unchanged
                            } else if old(self).link_behavior.overwrite_symbolic_links {
                                r == LinkStep::Done && after.links_of() == links.push(link)
                                    && after.deletes_of() == deletes.push(
                                    (destination_path@, kind_of(*file)),
                                ) && final(self).conflicts@ == conflicts
                            } else {
                                r == LinkStep::Abort
                            },
                            Destination::Missing => true,
                        }
                    },
                }
            }),
    {
        match found {
            Destination::Missing => {
                self.payload.links.push((source_path, destination_path));
                LinkStep::Done
            },
            _ => {
                if file.is_symlink() {
                    return LinkStep::Abort;
                }
                match found {
                    Destination::Regular => {
                        self.link_check_for_regular_file(source_path, destination_path);
                        LinkStep::Done
                    },
                    Destination::Directory => {
                        if file.is_regular() {
                            LinkStep::Abort
                        } else {
                            LinkStep::Descend
                        }
                    },
                    Destination::Symlink(target) => {
                        let kind = if file.is_regular() {
                            FileKind::Regular
                        } else {
                            FileKind::Directory
                        };
                        self.link_check_for_symlink(source_path, destination_path, kind, &target)
                    },
                    Destination::Missing => LinkStep::Done,
                }
            },
        }
    }
}

/// `k` components `..`.
pub open spec fn parent_steps(k: nat) -> Seq<Seq<char>>
    decreases k,
{
    if k == 0 {
        Seq::empty()
    } else {
        parent_steps((k - 1) as nat).push(seq!['.', '.'])
    }
}

/// Where the link for `file_path` of the group at `group_path` points, seen from the
/// file's own directory: one `..` per directory above the file, then `dotfiles`, the group
/// path and the file path.
pub open spec fn link_target(file_path: Seq<Seq<char>>, group_path: Seq<Seq<char>>) -> Seq<
    Seq<char>,
> {
    joined(
        joined(
            parent_steps((file_path.len() - 1) as nat).push(
                seq!['d', 'o', 't', 'f', 'i', 'l', 'e', 's'],
            ),
            group_path,
        ),
        file_path,
    )
}

/// The target of the link for `file_path` of the group at `group_path` (see
/// `link_target`).
pub fn construct_link_target(file_path: &FsPath, group_path: &FsPath) -> (r: FsPath)
    requires
        file_path@.len() >= 1,
    ensures
        r@ == link_target(file_path@, group_path@),
{
    let directory_level = file_path.len();
    let mut path = FsPath::new();
    let mut k: usize = 0;
    while k < directory_level - 1
        invariant
            k <= directory_level - 1,
            directory_level == file_path@.len(),
            path@ == parent_steps(k as nat),
        decreases directory_level - 1 - k,
    {
        let up = "..".to_string();
        proof {
            reveal_strlit("..");
        }
        assert(up@ =~= seq!['.', '.']);
        path.push_piece(up);
        k += 1;
    }
    let dotfiles = "dotfiles".to_string();
    proof {
        reveal_strlit("dotfiles");
    }
    assert(dotfiles@ =~= seq!['d', 'o', 't', 'f', 'i', 'l', 'e', 's']);
    path.push_piece(dotfiles);
    path.push_path(group_path);
    path.push_path(file_path);
    path
}

} // verus!
