//! Moving the contents of one directory into another.
//!
//! Nothing here touches the file system. A caller walks the source
//! directory, asks for the operations that move what it found, and carries
//! them out in order, stopping at the first that fails. The source directory
//! is removed by the last operation only, and nothing is moved to a place
//! inside it, so that a move that fails midway loses nothing.

use crate::path::{ascii, bytes_eq_str, lemma_views_push, names_view, views, PathModel, TreePath};
use vstd::prelude::*;

verus! {

/// Why a directory cannot be moved.
#[derive(Debug, Clone, Copy, PartialEq, Eq, Structural)]
pub enum DirectoryError {
    /// The source is not there, or cannot be walked.
    MissingSource,
    /// The destination is the source or lies inside it, or something would
    /// be moved to a place inside the source: removing the source afterwards
    /// would remove what was moved.
    InvalidDestination,
}

/// What a [`DirMove`] stands for.
pub struct MoveModel {
    pub from: PathModel,
    pub dest: PathModel,
}

/// A directory and the place that it is moved to.
#[derive(Debug)]
pub struct DirMove {
    pub from: TreePath,
    pub dest: TreePath,
}

impl View for DirMove {
    type V = MoveModel;

    open spec fn view(&self) -> MoveModel {
        MoveModel { from: self.from@, dest: self.dest@ }
    }
}

/// What an [`EntryInfo`] stands for.
pub struct EntryModel {
    pub name: Seq<u8>,
    pub is_dir: bool,
}

/// One entry of a listed directory: its name, and whether it is a directory.
#[derive(Debug)]
pub struct EntryInfo {
    pub name: Vec<u8>,
    pub is_dir: bool,
}

impl View for EntryInfo {
    type V = EntryModel;

    open spec fn view(&self) -> EntryModel {
        EntryModel { name: self.name@, is_dir: self.is_dir }
    }
}

/// What a [`TreeEntry`] stands for.
pub struct TreeEntryModel {
    pub rel: Seq<Seq<u8>>,
    pub is_dir: bool,
}

/// One entry met on a walk through a directory: its path from the
/// directory down, and whether it is a directory. A walk names a directory
/// before what is inside it.
#[derive(Debug)]
pub struct TreeEntry {
    pub rel: Vec<Vec<u8>>,
    pub is_dir: bool,
}

impl View for TreeEntry {
    type V = TreeEntryModel;

    open spec fn view(&self) -> TreeEntryModel {
        TreeEntryModel { rel: names_view(self.rel@), is_dir: self.is_dir }
    }
}

/// What an [`FsOp`] stands for.
pub enum OpModel {
    CreateDirAll { dir: PathModel },
    MoveFile { from: PathModel, dest: PathModel },
    RemoveDirAll { dir: PathModel },
}

/// One operation on the file system.
#[derive(Debug)]
pub enum FsOp {
    /// Create the directory and every missing directory above it.
    CreateDirAll { dir: TreePath },
    /// Move the file: rename it, and where renaming fails, as it does across
    /// devices, copy it.
    MoveFile { from: TreePath, dest: TreePath },
    /// Remove the directory with everything that is left in it.
    RemoveDirAll { dir: TreePath },
}

impl View for FsOp {
    type V = OpModel;

    open spec fn view(&self) -> OpModel {
        match self {
            FsOp::CreateDirAll { dir } => OpModel::CreateDirAll { dir: dir@ },
            FsOp::MoveFile { from, dest } => OpModel::MoveFile { from: from@, dest: dest@ },
            FsOp::RemoveDirAll { dir } => OpModel::RemoveDirAll { dir: dir@ },
        }
    }
}

/// Whether a file name is one of the files that desktops scatter and that
/// are never moved: `desktop.ini` and `.DS_Store`.
pub open spec fn is_noise_name(name: Seq<u8>) -> bool {
    name == ascii("desktop.ini"@) || name == ascii(".DS_Store"@)
}

/// Whether a file of this name is left behind by a move.
pub fn is_noise_file(name: &[u8]) -> (noise: bool)
    ensures
        noise == is_noise_name(name@),
{
    proof {
        reveal_strlit("desktop.ini");
        reveal_strlit(".DS_Store");
        vstd::string::is_ascii_spec_bytes("desktop.ini");
        vstd::string::is_ascii_spec_bytes(".DS_Store");
    }
    bytes_eq_str(name, "desktop.ini") || bytes_eq_str(name, ".DS_Store")
}

/// Whether an entry is a file that a move takes along: a file, under a
/// name that is not one of those left behind.
pub open spec fn is_moved(entry: TreeEntryModel) -> bool {
    !entry.is_dir && entry.rel.len() > 0 && !is_noise_name(entry.rel.last())
}

/// The operation that moving one entry of `from` into `dest` takes: a
/// directory is created on the other side, a file is moved, and a file that
/// is left behind takes none.
pub open spec fn entry_op(from: PathModel, dest: PathModel, entry: TreeEntryModel) -> Option<
    OpModel,
> {
    if entry.rel.len() == 0 {
        None
    } else if entry.is_dir {
        Some(OpModel::CreateDirAll { dir: dest.extend(entry.rel) })
    } else if is_noise_name(entry.rel.last()) {
        None
    } else {
        Some(OpModel::MoveFile { from: from.extend(entry.rel), dest: dest.extend(entry.rel) })
    }
}

/// The operations that move the given entries of `from` into `dest`, in
/// their order.
pub open spec fn entry_ops(from: PathModel, dest: PathModel, entries: Seq<TreeEntryModel>) -> Seq<
    OpModel,
>
    decreases entries.len(),
{
    if entries.len() == 0 {
        Seq::empty()
    } else {
        let before = entry_ops(from, dest, entries.drop_last());
        match entry_op(from, dest, entries.last()) {
            Some(op) => before.push(op),
            None => before,
        }
    }
}

/// What comes first in a move: the destination is created where it is missing.
pub open spec fn create_ops(dest: PathModel, dest_exists: bool) -> Seq<OpModel> {
    if dest_exists {
        Seq::empty()
    } else {
        seq![OpModel::CreateDirAll { dir: dest }]
    }
}

/// The operations that move the contents of `from` into `dest` and remove
/// `from`: the destination is created where it is missing, every entry is
/// moved, and the source is removed last.
pub open spec fn move_ops(
    from: PathModel,
    dest: PathModel,
    entries: Seq<TreeEntryModel>,
    dest_exists: bool,
) -> Seq<OpModel> {
    create_ops(dest, dest_exists) + entry_ops(from, dest, entries) + seq![
        OpModel::RemoveDirAll { dir: from },
    ]
}

/// Whether the move would put something inside the source: the destination
/// itself, or the place of one of the entries.
pub open spec fn lands_inside(from: PathModel, dest: PathModel, entries: Seq<TreeEntryModel>)
    -> bool {
    from.contains(dest) || exists|k: int|
        0 <= k < entries.len() && from.contains(dest.extend((#[trigger] entries[k]).rel))
}

/// What moving a directory comes to: the operations, or why there are none.
pub open spec fn move_plan(
    from: PathModel,
    dest: PathModel,
    walk: Option<Seq<TreeEntryModel>>,
    dest_exists: bool,
) -> Result<Seq<OpModel>, DirectoryError> {
    match walk {
        None => Err(DirectoryError::MissingSource),
        Some(entries) => if lands_inside(from, dest, entries) {
            Err(DirectoryError::InvalidDestination)
        } else {
            Ok(move_ops(from, dest, entries, dest_exists))
        },
    }
}

/// The view of a plan.
pub open spec fn plan_view(plan: Result<Vec<FsOp>, DirectoryError>) -> Result<
    Seq<OpModel>,
    DirectoryError,
> {
    match plan {
        Ok(ops) => Ok(views(ops@)),
        Err(e) => Err(e),
    }
}

/// The view of a walk that may be missing.
pub open spec fn walk_view(walk: Option<Vec<TreeEntry>>) -> Option<Seq<TreeEntryModel>> {
    match walk {
        Some(entries) => Some(views(entries@)),
        None => None,
    }
}

/// Plans the move of the contents of `from` into `dest`, given the entries
/// that a walk through `from` met (`None` where it is missing or cannot be
/// walked) and whether `dest` exists. The plan creates `dest` where it is
/// missing, creates every directory of the source on the other side, moves
/// every file but those that are never moved, and removes `from` last, with
/// what was left behind. A missing source gives an error and no operation,
/// and so does a move that would put something inside the source.
pub fn move_and_remove_dir(
    from: &TreePath,
    dest: &TreePath,
    walk: &Option<Vec<TreeEntry>>,
    dest_exists: bool,
) -> (plan: Result<Vec<FsOp>, DirectoryError>)
    ensures
        plan_view(plan) == move_plan(from@, dest@, walk_view(*walk), dest_exists),
{
    let entries = match walk {
        None => {
            return Err(DirectoryError::MissingSource);
        },
        Some(entries) => entries,
    };
    if from.contains(dest) {
        return Err(DirectoryError::InvalidDestination);
    }
    let ghost all = views(entries@);
    let ghost create = create_ops(dest@, dest_exists);
    let mut ops: Vec<FsOp> = Vec::new();
    if !dest_exists {
        let op = FsOp::CreateDirAll { dir: dest.duplicate() };
        proof {
            lemma_views_push(ops@, op);
        }
        ops.push(op);
    }
    let mut i: usize = 0;
    assert(views(ops@) =~= create + entry_ops(from@, dest@, all.subrange(0, 0)));
    while i < entries.len()
        invariant
            i <= entries.len(),
            all == views(entries@),
            walk_view(*walk) == Some(all),
            !from@.contains(dest@),
            forall|k: int| 0 <= k < i ==> !from@.contains(dest@.extend((#[trigger] all[k]).rel)),
            views(ops@) == create + entry_ops(from@, dest@, all.subrange(0, i as int)),
        decreases entries.len() - i,
    {
        let entry = &entries[i];
        let ghost before = entry_ops(from@, dest@, all.subrange(0, i as int));
        proof {
            assert(all.subrange(0, i + 1).drop_last() == all.subrange(0, i as int));
            assert(all.subrange(0, i + 1).last() == entry@);
        }
        let to = dest.extend(&entry.rel);
        if from.contains(&to) {
            assert(from@.contains(dest@.extend(all[i as int].rel)));
            assert(lands_inside(from@, dest@, all));
            return Err(DirectoryError::InvalidDestination);
        }
        if entry.rel.len() > 0 {
            if entry.is_dir {
                let op = FsOp::CreateDirAll { dir: to };
                proof {
                    lemma_views_push(ops@, op);
                    assert((create + before).push(op@) =~= create + before.push(op@));
                }
                ops.push(op);
            } else {
                assert(entry@.rel.last() == entry.rel@[entry.rel.len() - 1]@);
                if !is_noise_file(entry.rel[entry.rel.len() - 1].as_slice()) {
                    let op = FsOp::MoveFile { from: from.extend(&entry.rel), dest: to };
                    proof {
                        lemma_views_push(ops@, op);
                        assert((create + before).push(op@) =~= create + before.push(op@));
                    }
                    ops.push(op);
                }
            }
        }
        i += 1;
    }
    assert(all.subrange(0, entries.len() as int) == all);
    let last = FsOp::RemoveDirAll { dir: from.duplicate() };
    proof {
        lemma_views_push(ops@, last);
        assert(views(ops@).push(last@) =~= move_ops(from@, dest@, all, dest_exists));
        assert(!lands_inside(from@, dest@, all));
    }
    ops.push(last);
    Ok(ops)
}

/// The files of a tree after one operation, the tree taken as the set of
/// the paths of its files: a file that is there moves to its new path, a
/// removed directory takes along every file under it, and creating a
/// directory changes no file.
pub open spec fn files_after_op(files: Set<PathModel>, op: OpModel) -> Set<PathModel> {
    match op {
        OpModel::CreateDirAll { dir } => files,
        OpModel::MoveFile { from, dest } => if files.contains(from) {
            files.remove(from).insert(dest)
        } else {
            files
        },
        OpModel::RemoveDirAll { dir } => files.filter(|file: PathModel| !dir.contains(file)),
    }
}

/// The files of a tree after the operations, carried out in order.
pub open spec fn files_after(files: Set<PathModel>, ops: Seq<OpModel>) -> Set<PathModel>
    decreases ops.len(),
{
    if ops.len() == 0 {
        files
    } else {
        files_after_op(files_after(files, ops.drop_last()), ops.last())
    }
}

/// Carrying out operations one list after another is carrying out both lists.
pub proof fn lemma_files_after_both(files: Set<PathModel>, first: Seq<OpModel>, second: Seq<OpModel>)
    ensures
        files_after(files, first + second) == files_after(files_after(files, first), second),
    decreases second.len(),
{
    if second.len() == 0 {
        assert(first + second =~= first);
    } else {
        lemma_files_after_both(files, first, second.drop_last());
        assert((first + second).drop_last() =~= first + second.drop_last());
        assert((first + second).last() == second.last());
    }
}

/// A path extended at its far end lies under the path.
pub proof fn lemma_extend_contains(base: PathModel, rel: Seq<Seq<u8>>)
    ensures
        base.contains(base.extend(rel)),
{
    assert(base.extend(rel).parts.subrange(0, base.parts.len() as int) =~= base.parts);
}

/// Once the entries of a move are carried out, every file that is moved
/// has arrived at its place in the destination, and every file outside the
/// source is where it was.
pub proof fn lemma_entries_keep_files(
    files: Set<PathModel>,
    from: PathModel,
    dest: PathModel,
    entries: Seq<TreeEntryModel>,
)
    requires
        !lands_inside(from, dest, entries),
    ensures
        forall|k: int|
            0 <= k < entries.len() && is_moved(#[trigger] entries[k]) && files.contains(
                from.extend(entries[k].rel),
            ) ==> files_after(files, entry_ops(from, dest, entries)).contains(
                dest.extend(entries[k].rel),
            ),
        forall|file: PathModel|
            files.contains(file) && !from.contains(file) ==> #[trigger] files_after(
                files,
                entry_ops(from, dest, entries),
            ).contains(file),
    decreases entries.len(),
{
    if entries.len() > 0 {
        let shorter = entries.drop_last();
        let entry = entries.last();
        let before = files_after(files, entry_ops(from, dest, shorter));
        let after = files_after(files, entry_ops(from, dest, entries));
        assert forall|k: int| 0 <= k < shorter.len() implies !from.contains(
            dest.extend((#[trigger] shorter[k]).rel),
        ) by {
            assert(shorter[k] == entries[k]);
        }
        lemma_entries_keep_files(files, from, dest, shorter);
        let source = from.extend(entry.rel);
        let target = dest.extend(entry.rel);
        lemma_extend_contains(from, entry.rel);
        assert(entry == entries[entries.len() - 1]);
        assert(!from.contains(target));
        match entry_op(from, dest, entry) {
            Some(op) => {
                assert(entry_ops(from, dest, entries).drop_last() == entry_ops(from, dest, shorter));
                assert(after == files_after_op(before, op));
            },
            None => {
                assert(after == before);
            },
        }
        assert forall|k: int|
            0 <= k < entries.len() && is_moved(#[trigger] entries[k]) && files.contains(
                from.extend(entries[k].rel),
            ) implies after.contains(dest.extend(entries[k].rel)) by {
            if k < shorter.len() {
                assert(shorter[k] == entries[k]);
                assert(before.contains(dest.extend(entries[k].rel)));
                assert(!from.contains(dest.extend(entries[k].rel)));
            } else {
                if !before.contains(source) {
                    // the file has left its place: an entry before this one named it too
                    lemma_moved_file_arrived(files, from, dest, shorter, entry.rel);
                }
            }
        }
        assert forall|file: PathModel| files.contains(file) && !from.contains(file) implies after.contains(
            file,
        ) by {
            assert(before.contains(file));
        }
    }
}

/// A file of the source that is no longer at its place after the entries
/// were carried out has arrived at its place in the destination.
pub proof fn lemma_moved_file_arrived(
    files: Set<PathModel>,
    from: PathModel,
    dest: PathModel,
    entries: Seq<TreeEntryModel>,
    rel: Seq<Seq<u8>>,
)
    requires
        !lands_inside(from, dest, entries),
        !from.contains(dest.extend(rel)),
        files.contains(from.extend(rel)),
        !files_after(files, entry_ops(from, dest, entries)).contains(from.extend(rel)),
    ensures
        files_after(files, entry_ops(from, dest, entries)).contains(dest.extend(rel)),
    decreases entries.len(),
{
    if entries.len() > 0 {
        let shorter = entries.drop_last();
        let entry = entries.last();
        let before = files_after(files, entry_ops(from, dest, shorter));
        let after = files_after(files, entry_ops(from, dest, entries));
        assert forall|k: int| 0 <= k < shorter.len() implies !from.contains(
            dest.extend((#[trigger] shorter[k]).rel),
        ) by {
            assert(shorter[k] == entries[k]);
        }
        assert(entry == entries[entries.len() - 1]);
        lemma_extend_contains(from, entry.rel);
        lemma_extend_contains(from, rel);
        match entry_op(from, dest, entry) {
            Some(op) => {
                assert(entry_ops(from, dest, entries).drop_last() == entry_ops(from, dest, shorter));
                assert(after == files_after_op(before, op));
            },
            None => {
                assert(after == before);
            },
        }
        if before.contains(from.extend(rel)) {
            // this entry moved the file
            assert(from.extend(entry.rel) == from.extend(rel));
            assert(from.extend(entry.rel).parts.subrange(
                from.parts.len() as int,
                from.extend(entry.rel).parts.len() as int,
            ) =~= entry.rel);
            assert(from.extend(rel).parts.subrange(
                from.parts.len() as int,
                from.extend(rel).parts.len() as int,
            ) =~= rel);
            assert(entry.rel == rel);
        } else {
            lemma_moved_file_arrived(files, from, dest, shorter, rel);
        }
    }
}

/// A planned move loses nothing. Take a tree as the set of the paths of its
/// files, and carry out the plan of a move of `from` into `dest`. Then every
/// file that the walk met in the source, those left behind aside, is in the
/// destination under the path that it had in the source; no file is left
/// under the source; and every file that was outside the source is where it
/// was.
pub proof fn lemma_move_loses_nothing(
    files: Set<PathModel>,
    from: PathModel,
    dest: PathModel,
    entries: Seq<TreeEntryModel>,
    dest_exists: bool,
)
    requires
        move_plan(from, dest, Some(entries), dest_exists) is Ok,
    ensures
        forall|k: int|
            0 <= k < entries.len() && is_moved(#[trigger] entries[k]) && files.contains(
                from.extend(entries[k].rel),
            ) ==> files_after(files, move_ops(from, dest, entries, dest_exists)).contains(
                dest.extend(entries[k].rel),
            ),
        forall|file: PathModel|
            from.contains(file) ==> !(#[trigger] files_after(
                files,
                move_ops(from, dest, entries, dest_exists),
            ).contains(file)),
        forall|file: PathModel|
            files.contains(file) && !from.contains(file) ==> #[trigger] files_after(
                files,
                move_ops(from, dest, entries, dest_exists),
            ).contains(file),
{
    let create = create_ops(dest, dest_exists);
    let moves = entry_ops(from, dest, entries);
    let remove = seq![OpModel::RemoveDirAll { dir: from }];
    let started = files_after(files, create);
    assert(started == files) by {
        if !dest_exists {
            assert(create.drop_last() =~= Seq::<OpModel>::empty());
            assert(files_after(files, create.drop_last()) == files);
        }
    }
    let moved = files_after(files, moves);
    let after = files_after(files, move_ops(from, dest, entries, dest_exists));
    lemma_files_after_both(files, create, moves);
    lemma_files_after_both(files, create + moves, remove);
    assert(remove.drop_last() =~= Seq::<OpModel>::empty());
    assert(files_after(moved, remove.drop_last()) == moved);
    assert(files_after(moved, remove) == files_after_op(moved, remove.last()));
    assert(after == moved.filter(|file: PathModel| !from.contains(file)));
    lemma_entries_keep_files(files, from, dest, entries);
    assert forall|k: int|
        0 <= k < entries.len() && is_moved(#[trigger] entries[k]) && files.contains(
            from.extend(entries[k].rel),
        ) implies after.contains(dest.extend(entries[k].rel)) by {
        assert(moved.contains(dest.extend(entries[k].rel)));
        assert(!from.contains(dest.extend(entries[k].rel)));
    }
}

/// What a [`SubdirInfo`] stands for.
pub struct SubdirModel {
    pub name: Seq<u8>,
    pub is_dir: bool,
    pub is_empty: bool,
}

/// One entry of a directory that is cleared of its empty directories: its
/// name, whether it is a directory, and whether it holds nothing.
#[derive(Debug)]
pub struct SubdirInfo {
    pub name: Vec<u8>,
    pub is_dir: bool,
    pub is_empty: bool,
}

impl View for SubdirInfo {
    type V = SubdirModel;

    open spec fn view(&self) -> SubdirModel {
        SubdirModel { name: self.name@, is_dir: self.is_dir, is_empty: self.is_empty }
    }
}

/// The entries of `dir` that are empty directories, as paths, in their order.
pub open spec fn empty_dirs(dir: PathModel, entries: Seq<SubdirModel>) -> Seq<PathModel>
    decreases entries.len(),
{
    if entries.len() == 0 {
        Seq::empty()
    } else {
        let before = empty_dirs(dir, entries.drop_last());
        let entry = entries.last();
        if entry.is_dir && entry.is_empty {
            before.push(dir.join(entry.name))
        } else {
            before
        }
    }
}

/// The directories to remove when `target_dir` is cleared of its empty
/// directories: those directly inside it that hold nothing. Directories
/// further down are not looked at.
pub fn remove_empty_dirs(target_dir: &TreePath, entries: &Vec<SubdirInfo>) -> (doomed: Vec<TreePath>)
    ensures
        views(doomed@) == empty_dirs(target_dir@, views(entries@)),
{
    let ghost all = views(entries@);
    let mut doomed: Vec<TreePath> = Vec::new();
    let mut i: usize = 0;
    assert(views(doomed@) =~= empty_dirs(target_dir@, all.subrange(0, 0)));
    while i < entries.len()
        invariant
            i <= entries.len(),
            all == views(entries@),
            views(doomed@) == empty_dirs(target_dir@, all.subrange(0, i as int)),
        decreases entries.len() - i,
    {
        let entry = &entries[i];
        proof {
            assert(all.subrange(0, i + 1).drop_last() == all.subrange(0, i as int));
            assert(all.subrange(0, i + 1).last() == entry@);
        }
        if entry.is_dir && entry.is_empty {
            let dir = target_dir.join(entry.name.as_slice());
            proof {
                lemma_views_push(doomed@, dir);
            }
            doomed.push(dir);
        }
        i += 1;
    }
    assert(all.subrange(0, entries.len() as int) == all);
    doomed
}

} // verus!
