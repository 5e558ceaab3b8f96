//! The status of the files that the groups of a tree file ask to link into a home folder.
//!
//! Each file that is not a directory is paired with a group, and then checked in a few
//! steps against the disk: does its source exist in the group's folder, does something
//! already stand at its destination, and of what type. `StatusDiff::checks` lists the files
//! to check; `StatusDiff::step` decides, from what one step found, what to record and what
//! to look at next. The caller does the looking.
use vstd::prelude::*;

use crate::errors::FileTypeEnum;
use crate::file_tree::FileTree;
use crate::path::{joined, FsPath};
use crate::text::path_components;
use crate::tsml::groups_map::{entries_trees, GroupsMap};
use crate::tsml::tags::Tags;

verus! {

/// The nodes of `t` that are not directories, in depth-first pre-order, each paired with
/// the group name `g`.
pub open spec fn leaf_files_in(t: FileTree<Tags>, g: Seq<char>) -> Seq<(FileTree<Tags>, Seq<char>)>
    decreases t,
{
    match t {
        FileTree::Directory { children, .. } => leaf_files_in_list(children@, g),
        _ => seq![(t, g)],
    }
}

/// `leaf_files_in` of each tree of `ts`, one after the other.
pub open spec fn leaf_files_in_list(ts: Seq<FileTree<Tags>>, g: Seq<char>) -> Seq<
    (FileTree<Tags>, Seq<char>),
>
    decreases ts,
{
    if ts.len() == 0 {
        Seq::empty()
    } else {
        leaf_files_in_list(ts.drop_last(), g) + leaf_files_in(ts.last(), g)
    }
}

/// The trees of all groups, one group after the other.
pub open spec fn all_trees(gs: Seq<(Seq<char>, Seq<FileTree<Tags>>)>) -> Seq<FileTree<Tags>>
    decreases gs.len(),
{
    if gs.len() == 0 {
        Seq::empty()
    } else {
        all_trees(gs.drop_last()) + gs.last().1
    }
}

/// The files to check, with their groups: the `i`-th tree of all groups is paired with the
/// `i`-th group name, for the first `n` of them.
pub open spec fn paired_files(gs: Seq<(Seq<char>, Seq<FileTree<Tags>>)>, n: nat) -> Seq<
    (FileTree<Tags>, Seq<char>),
>
    decreases n,
{
    if n == 0 {
        Seq::empty()
    } else {
        paired_files(gs, (n - 1) as nat) + leaf_files_in(all_trees(gs)[n - 1], gs[n - 1].0)
    }
}

/// The files that `StatusDiff::checks` lists for the groups `gs`: as many trees are paired
/// with group names as there are of the fewer.
pub open spec fn status_files(gs: Seq<(Seq<char>, Seq<FileTree<Tags>>)>) -> Seq<
    (FileTree<Tags>, Seq<char>),
> {
    let n = if all_trees(gs).len() < gs.len() {
        all_trees(gs).len()
    } else {
        gs.len()
    };
    paired_files(gs, n)
}

/// One file to check: its path as the tree holds it, the name of its group, where it lies in
/// the group's folder, where it would be linked in the backup folder, and whether it is a
/// regular file.
pub struct StatusCheck {
    pub file: FsPath,
    pub group: String,
    pub source: FsPath,
    pub destination: FsPath,
    pub regular: bool,
}

/// Whether `c` is the check of the file `f` of group `g`, with destinations under `backup`.
pub open spec fn check_for(
    c: StatusCheck,
    f: FileTree<Tags>,
    g: Seq<char>,
    backup: Seq<Seq<char>>,
) -> bool {
    &&& c.file@ == f.path_of()
    &&& c.group@ == g
    &&& c.source@ == joined(path_components(g), f.path_of())
    &&& c.destination@ == joined(backup, f.path_of())
    &&& c.regular == (f is Regular)
}

/// Whether `cs` are the checks of the files `fs`, in order.
pub open spec fn checks_for(
    cs: Seq<StatusCheck>,
    fs: Seq<(FileTree<Tags>, Seq<char>)>,
    backup: Seq<Seq<char>>,
) -> bool {
    &&& cs.len() == fs.len()
    &&& forall|i: int| 0 <= i < cs.len() ==> check_for(#[trigger] cs[i], fs[i].0, fs[i].1, backup)
}

/// What a step of a check found.
#[derive(Debug, Clone, Copy, PartialEq, Eq, Structural)]
pub enum StatusEvent {
    /// The check begins.
    Start,
    /// Whether the source exists.
    SourceExists(bool),
    /// Whether something exists at the destination.
    DestinationExists(bool),
    /// The type of what stands at the destination.
    DestinationType(FileTypeEnum),
    /// The type of what stands at the destination could not be read; whether for lack of
    /// permission.
    DestinationUnreadable(bool),
}

/// What to do after a step of a check.
#[derive(Debug, Clone, Copy, PartialEq, Eq, Structural)]
pub enum StatusAction {
    /// Stop: the file is not a regular file, which is not supported yet.
    FailNotRegular,
    /// Look whether the source exists.
    CheckSource,
    /// Look whether something exists at the destination.
    CheckDestination,
    /// Read the type of what stands at the destination, without following a symlink.
    ReadDestinationType,
    /// Read the target of the symlink at the destination; stop if that fails.
    ReadLink,
    /// Stop: the destination could not be scanned.
    FailScan,
    /// This check is done.
    Next,
}

/// The action that follows the event `e` in the check of a file that is regular or not.
pub open spec fn status_action(regular: bool, e: StatusEvent) -> StatusAction {
    match e {
        StatusEvent::Start => if regular {
            StatusAction::CheckSource
        } else {
            StatusAction::FailNotRegular
        },
        StatusEvent::SourceExists(found) => if found {
            StatusAction::CheckDestination
        } else {
            StatusAction::Next
        },
        StatusEvent::DestinationExists(found) => if found {
            StatusAction::ReadDestinationType
        } else {
            StatusAction::Next
        },
        StatusEvent::DestinationType(t) => if t == FileTypeEnum::Symlink {
            StatusAction::ReadLink
        } else {
            StatusAction::Next
        },
        StatusEvent::DestinationUnreadable(denied) => if denied {
            StatusAction::Next
        } else {
            StatusAction::FailScan
        },
    }
}

/// The model of a `StatusDiff`: its lists, each path by its components.
pub struct StatusModel {
    pub linked_correctly: Seq<Seq<Seq<char>>>,
    pub ready_to_link: Seq<(Seq<Seq<char>>, Seq<Seq<char>>)>,
    pub missing_source: Seq<Seq<Seq<char>>>,
    pub linked_incorrectly: Seq<(Seq<Seq<char>>, Seq<Seq<char>>)>,
    pub not_a_symlink: Seq<(Seq<Seq<char>>, FileTypeEnum)>,
    pub no_permission_to_link_to_target: Seq<Seq<Seq<char>>>,
}

/// The model after the event `e` in the check of `file` of the group at `group`: a missing
/// source, a free destination, a destination that is not a symlink, and one that could not
/// be read for lack of permission are recorded; nothing else is.
pub open spec fn status_update(
    m: StatusModel,
    file: Seq<Seq<char>>,
    group: Seq<Seq<char>>,
    e: StatusEvent,
) -> StatusModel {
    match e {
        StatusEvent::SourceExists(false) => StatusModel {
            missing_source: m.missing_source.push(file),
            ..m
        },
        StatusEvent::DestinationExists(false) => StatusModel {
            ready_to_link: m.ready_to_link.push((file, group)),
            ..m
        },
        StatusEvent::DestinationType(t) => if t == FileTypeEnum::Symlink {
            m
        } else {
            StatusModel { not_a_symlink: m.not_a_symlink.push((file, t)), ..m }
        },
        StatusEvent::DestinationUnreadable(true) => StatusModel {
            no_permission_to_link_to_target: m.no_permission_to_link_to_target.push(file),
            ..m
        },
        _ => m,
    }
}

/// The paths of `v`, by their components.
pub open spec fn paths_view(v: Seq<FsPath>) -> Seq<Seq<Seq<char>>> {
    Seq::new(v.len(), |i: int| v[i]@)
}

/// The pairs of paths of `v`, by their components.
pub open spec fn path_pairs_view(v: Seq<(FsPath, FsPath)>) -> Seq<(Seq<Seq<char>>, Seq<Seq<char>>)> {
    Seq::new(v.len(), |i: int| (v[i].0@, v[i].1@))
}

/// The paths and types of `v`, the paths by their components.
pub open spec fn typed_paths_view(v: Seq<(FsPath, FileTypeEnum)>) -> Seq<(Seq<Seq<char>>, FileTypeEnum)> {
    Seq::new(v.len(), |i: int| (v[i].0@, v[i].1))
}

/// The files of the groups, sorted by their status.
#[derive(Debug, Clone)]
pub struct StatusDiff {
    /// Files whose destination is a symlink to their source.
    pub linked_correctly: Vec<FsPath>,
    /// Files whose destination is free, each with the folder of its group.
    pub ready_to_link: Vec<(FsPath, FsPath)>,
    /// Files whose source does not exist.
    pub missing_source: Vec<FsPath>,
    /// Files whose destination is a symlink to elsewhere, each with that target.
    pub linked_incorrectly: Vec<(FsPath, FsPath)>,
    /// Files whose destination is not a symlink, each with the type found there.
    pub not_a_symlink: Vec<(FsPath, FileTypeEnum)>,
    /// Files whose destination could not be read for lack of permission.
    pub no_permission_to_link_to_target: Vec<FsPath>,
}

impl View for StatusDiff {
    type V = StatusModel;

    open spec fn view(&self) -> StatusModel {
        StatusModel {
            linked_correctly: paths_view(self.linked_correctly@),
            ready_to_link: path_pairs_view(self.ready_to_link@),
            missing_source: paths_view(self.missing_source@),
            linked_incorrectly: path_pairs_view(self.linked_incorrectly@),
            not_a_symlink: typed_paths_view(self.not_a_symlink@),
            no_permission_to_link_to_target: paths_view(self.no_permission_to_link_to_target@),
        }
    }
}

/// Whether no file of `m` is in error: nothing is missing, wrongly linked, in the way or
/// out of reach.
pub open spec fn status_clear(m: StatusModel) -> bool {
    &&& m.missing_source.len() == 0
    &&& m.linked_incorrectly.len() == 0
    &&& m.not_a_symlink.len() == 0
    &&& m.no_permission_to_link_to_target.len() == 0
}

impl Default for StatusDiff {
    fn default() -> (r: StatusDiff)
        ensures
            r@.linked_correctly.len() == 0,
            r@.ready_to_link.len() == 0,
            r@.missing_source.len() == 0,
            r@.linked_incorrectly.len() == 0,
            r@.not_a_symlink.len() == 0,
            r@.no_permission_to_link_to_target.len() == 0,
    {
        StatusDiff::new()
    }
}

impl StatusDiff {
    /// A diff with every list empty.
    pub fn new() -> (r: StatusDiff)
        ensures
            r@.linked_correctly.len() == 0,
            r@.ready_to_link.len() == 0,
            r@.missing_source.len() == 0,
            r@.linked_incorrectly.len() == 0,
            r@.not_a_symlink.len() == 0,
            r@.no_permission_to_link_to_target.len() == 0,
    {
        StatusDiff {
            linked_correctly: Vec::new(),
            ready_to_link: Vec::new(),
            missing_source: Vec::new(),
            linked_incorrectly: Vec::new(),
            not_a_symlink: Vec::new(),
            no_permission_to_link_to_target: Vec::new(),
        }
    }

    /// Whether no file is in error (files ready to link are no error).
    pub fn is_clear(&self) -> (r: bool)
        ensures
            r == status_clear(self@),
    {
        self.missing_source.len() == 0 && self.linked_incorrectly.len() == 0
            && self.not_a_symlink.len() == 0 && self.no_permission_to_link_to_target.len() == 0
    }

    /// Records what the step `event` of `check` found, and says what to do next.
    pub fn step(&mut self, check: &StatusCheck, event: StatusEvent) -> (r: StatusAction)
        ensures
            r == status_action(check.regular, event),
            final(self)@ == status_update(
                old(self)@,
                check.file@,
                path_components(check.group@),
                event,
            ),
    {
        let ghost before = self@;
        match event {
            StatusEvent::Start => {
                if check.regular {
                    StatusAction::CheckSource
                } else {
                    StatusAction::FailNotRegular
                }
            },
            StatusEvent::SourceExists(found) => {
                if found {
                    StatusAction::CheckDestination
                } else {
                    self.missing_source.push(check.file.copy());
                    assert(self@.missing_source =~= before.missing_source.push(check.file@));
                    StatusAction::Next
                }
            },
            StatusEvent::DestinationExists(found) => {
                if found {
                    StatusAction::ReadDestinationType
                } else {
                    let group = FsPath::from_text(check.group.as_str());
                    self.ready_to_link.push((check.file.copy(), group));
                    assert(self@.ready_to_link =~= before.ready_to_link.push(
                        (check.file@, path_components(check.group@)),
                    ));
                    StatusAction::Next
                }
            },
            StatusEvent::DestinationType(t) => {
                if t == FileTypeEnum::Symlink {
                    StatusAction::ReadLink
                } else {
                    self.not_a_symlink.push((check.file.copy(), t));
                    assert(self@.not_a_symlink =~= before.not_a_symlink.push((check.file@, t)));
                    StatusAction::Next
                }
            },
            StatusEvent::DestinationUnreadable(denied) => {
                if denied {
                    self.no_permission_to_link_to_target.push(check.file.copy());
                    assert(self@.no_permission_to_link_to_target
                        =~= before.no_permission_to_link_to_target.push(check.file@));
                    StatusAction::Next
                } else {
                    StatusAction::FailScan
                }
            },
        }
    }
}

/// Checks of files one after the other are the checks of the files of both, in order.
proof fn lemma_checks_for_append(
    a: Seq<StatusCheck>,
    fa: Seq<(FileTree<Tags>, Seq<char>)>,
    b: Seq<StatusCheck>,
    fb: Seq<(FileTree<Tags>, Seq<char>)>,
    backup: Seq<Seq<char>>,
)
    requires
        checks_for(a, fa, backup),
        checks_for(b, fb, backup),
    ensures
        checks_for(a + b, fa + fb, backup),
{
    assert forall|i: int| 0 <= i < (a + b).len() implies check_for(
        #[trigger] (a + b)[i],
        (fa + fb)[i].0,
        (fa + fb)[i].1,
        backup,
    ) by {
        if i < a.len() {
            assert((a + b)[i] == a[i]);
            assert((fa + fb)[i] == fa[i]);
        } else {
            assert((a + b)[i] == b[i - a.len()]);
            assert((fa + fb)[i] == fb[i - a.len()]);
        }
    }
}

/// The check of the file `t` of the group `group`.
fn check_of(t: &FileTree<Tags>, group: &String, backup: &FsPath) -> (r: StatusCheck)
    ensures
        check_for(r, *t, group@, backup@),
{
    let mut source = FsPath::from_text(group.as_str());
    source.push_path(t.path());
    let mut destination = backup.copy();
    destination.push_path(t.path());
    StatusCheck {
        file: t.path().copy(),
        group: group.clone(),
        source,
        destination,
        regular: t.is_regular(),
    }
}

/// Appends the checks of the nodes of `t` that are not directories, in pre-order.
fn collect_checks(t: &FileTree<Tags>, group: &String, backup: &FsPath, out: &mut Vec<StatusCheck>)
    ensures
        final(out)@.len() == old(out)@.len() + leaf_files_in(*t, group@).len(),
        final(out)@.take(old(out)@.len() as int) == old(out)@,
        checks_for(final(out)@.skip(old(out)@.len() as int), leaf_files_in(*t, group@), backup@),
    decreases t,
{
    let ghost start = out@.len() as int;
    let ghost before = out@;
    match t {
        FileTree::Directory { children, .. } => {
            let mut i: usize = 0;
            assert(out@.skip(start) =~= Seq::<StatusCheck>::empty());
            assert(leaf_files_in_list(children@.take(0), group@) =~= Seq::empty());
            while i < children.len()
                invariant
                    i <= children@.len(),
                    *t is Directory,
                    t.kids() == children@,
                    0 <= start <= out@.len(),
                    before.len() == start,
                    out@.take(start) == before,
                    checks_for(
                        out@.skip(start),
                        leaf_files_in_list(children@.take(i as int), group@),
                        backup@,
                    ),
                decreases children@.len() - i,
            {
                let ghost mid = out@.len() as int;
                let ghost pre = out@;
                let ghost done = out@.skip(start);
                proof {
                    crate::file_tree::lemma_file_child_decreases(*t, i as int);
                }
                collect_checks(&children[i], group, backup, out);
                proof {
                    assert(out@.take(mid) == pre);
                    assert(out@.len() >= mid);
                    assert(pre.take(start) == before);
                    assert forall|x: int| 0 <= x < start implies out@[x] == before[x] by {
                        assert(out@.take(mid)[x] == out@[x]);
                        assert(pre.take(start)[x] == pre[x]);
                        assert(before[x] == pre.take(start)[x]);
                    }
                    assert(out@.take(start) =~= before);
                    assert forall|x: int| 0 <= x < mid - start implies out@[start + x] == done[x] by {
                        assert(out@.take(mid)[start + x] == out@[start + x]);
                    }
                    assert(out@.skip(start) =~= done + out@.skip(mid));
                    lemma_checks_for_append(
                        done,
                        leaf_files_in_list(children@.take(i as int), group@),
                        out@.skip(mid),
                        leaf_files_in(children@[i as int], group@),
                        backup@,
                    );
                    assert(children@.take(i + 1).drop_last() =~= children@.take(i as int));
                    assert(children@.take(i + 1).last() == children@[i as int]);
                }
                i += 1;
            }
            assert(children@.take(i as int) =~= children@);
        },
        _ => {
            let c = check_of(t, group, backup);
            out.push(c);
            assert(out@.take(start) =~= before);
            assert(out@.skip(start) =~= seq![c]);
        },
    }
}

impl StatusDiff {
    /// The checks to run, in order: the trees of all groups, one group after the other, are
    /// paired with the group names in order (as many as there are of the fewer), and each
    /// node of a tree that is not a directory is checked, in pre-order, with its
    /// destination under `backup`.
    pub fn checks(map: &GroupsMap, backup: &FsPath) -> (r: Vec<StatusCheck>)
        ensures
            checks_for(r@, status_files(map.trees()), backup@),
    {
        let entries = map.as_slice();
        let ghost gs = map.trees();
        let mut flat: Vec<&FileTree<Tags>> = Vec::new();
        let mut i: usize = 0;
        assert(gs.take(0) =~= Seq::<(Seq<char>, Seq<FileTree<Tags>>)>::empty());
        while i < entries.len()
            invariant
                i <= entries@.len(),
                gs == entries_trees(entries@),
                Seq::new(flat@.len(), |k: int| *flat@[k]) == all_trees(gs.take(i as int)),
            decreases entries@.len() - i,
        {
            let trees = &entries[i].1;
            let ghost base = Seq::new(flat@.len(), |k: int| *flat@[k]);
            let mut j: usize = 0;
            while j < trees.len()
                invariant
                    i < entries@.len(),
                    j <= trees@.len(),
                    trees == entries@[i as int].1,
                    Seq::new(flat@.len(), |k: int| *flat@[k]) == base + trees@.take(j as int),
                decreases trees@.len() - j,
            {
                let ghost fb = flat@;
                let tj = &trees[j];
                flat.push(tj);
                assert(flat@ == fb.push(tj));
                assert(*tj == trees@[j as int]);
                proof {
                    let now = Seq::new(flat@.len(), |k: int| *flat@[k]);
                    let was = Seq::new(fb.len(), |k: int| *fb[k]);
                    assert(was == base + trees@.take(j as int));
                    let want = base + trees@.take(j + 1);
                    assert(was.len() == fb.len());
                    assert(now.len() == flat@.len());
                    assert(flat@.len() == fb.len() + 1);
                    assert(trees@.take(j as int).len() == j);
                    assert(trees@.take(j + 1).len() == j + 1);
                    assert(now.len() == want.len());
                    assert forall|k: int| 0 <= k < now.len() implies now[k] == want[k] by {
                        if k < fb.len() {
                            assert(now[k] == was[k]);
                            if k >= base.len() {
                                assert(trees@.take(j + 1)[k - base.len()] == trees@.take(
                                    j as int,
                                )[k - base.len()]);
                            }
                        } else {
                            assert(now[k] == trees@[j as int]);
                        }
                    }
                    assert(now =~= want);
                }
                j += 1;
            }
            assert(gs.take(i + 1).drop_last() =~= gs.take(i as int));
            assert(gs.take(i + 1).last() == gs[i as int]);
            assert(trees@.take(j as int) =~= trees@);
            i += 1;
        }
        assert(gs.take(i as int) =~= gs);
        let n = if flat.len() < entries.len() {
            flat.len()
        } else {
            entries.len()
        };
        let mut out: Vec<StatusCheck> = Vec::new();
        let mut k: usize = 0;
        while k < n
            invariant
                k <= n,
                n <= flat@.len(),
                n <= entries@.len(),
                gs == entries_trees(entries@),
                Seq::new(flat@.len(), |x: int| *flat@[x]) == all_trees(gs),
                n == (if all_trees(gs).len() < gs.len() {
                    all_trees(gs).len()
                } else {
                    gs.len()
                }),
                checks_for(out@, paired_files(gs, k as nat), backup@),
            decreases n - k,
        {
            let ghost before = out@;
            assert(all_trees(gs)[k as int] == *flat@[k as int]);
            collect_checks(flat[k], &entries[k].0, backup, &mut out);
            proof {
                assert(out@.take(before.len() as int) + out@.skip(before.len() as int) =~= out@);
                lemma_checks_for_append(
                    before,
                    paired_files(gs, k as nat),
                    out@.skip(before.len() as int),
                    leaf_files_in(all_trees(gs)[k as int], gs[k as int].0),
                    backup@,
                );
            }
            k += 1;
        }
        out
    }
}

} // verus!
