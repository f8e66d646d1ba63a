//! Relocating the chart folders of a tree under one destination.
//!
//! Every chart folder goes directly under the destination, or, where the
//! destination is sharded, under one of 256 buckets inside it. The bucket of a
//! folder depends on its name only, so that a folder always finds the same
//! bucket.

use crate::chart_hashes::{canonical_parents, ChartHashes};
use crate::fsutil::{empty_dirs, remove_empty_dirs, DirMove, MoveModel, SubdirInfo, SubdirModel};
use crate::path::{lemma_views_push, views, PathModel, TreePath};
use md5::{Digest, Md5};
use vstd::prelude::*;

verus! {

/// The MD5 digest of `bytes`: 16 bytes.
pub uninterp spec fn md5_digest(bytes: Seq<u8>) -> Seq<u8>;

/// Calls `md5::Md5::digest` on the bytes and copies the digest out. The
/// contract names the outcome, the same bytes giving the same digest, and
/// states its length, 16 bytes.
#[verifier::external_body]
fn md5_of(bytes: &[u8]) -> (digest: Vec<u8>)
    ensures
        digest@ == md5_digest(bytes@),
        digest@.len() == 16,
{
    Md5::digest(bytes).to_vec()
}

/// The hexadecimal digit of a number below 16, in upper case.
pub open spec fn hex_digit(n: int) -> u8 {
    if n < 10 {
        ('0' as u8 + n) as u8
    } else {
        ('A' as u8 + n - 10) as u8
    }
}

/// The bucket that a digest gives: its first byte, written as two
/// hexadecimal digits in upper case.
pub open spec fn bucket_from(digest: Seq<u8>) -> Seq<u8> {
    seq![hex_digit(digest[0] as int / 16), hex_digit(digest[0] as int % 16)]
}

/// The bucket of a folder name.
pub open spec fn bucket_of(name: Seq<u8>) -> Seq<u8> {
    bucket_from(md5_digest(name))
}

/// The hexadecimal digit of `n`, in upper case.
fn upper_hex(n: u8) -> (digit: u8)
    requires
        n < 16,
    ensures
        digit == hex_digit(n as int),
{
    if n < 10 {
        '0' as u8 + n
    } else {
        'A' as u8 + (n - 10)
    }
}

/// The bucket that a digest gives: its first byte as two hexadecimal digits
/// in upper case, `00` to `FF`.
pub fn bucket_for(digest: &[u8]) -> (code: Vec<u8>)
    requires
        digest@.len() > 0,
    ensures
        code@ == bucket_from(digest@),
{
    let first = digest[0];
    let mut code: Vec<u8> = Vec::new();
    code.push(upper_hex(first / 16));
    code.push(upper_hex(first % 16));
    assert(code@ =~= bucket_from(digest@));
    code
}

/// The bucket of a folder name: two hexadecimal digits that depend on the
/// name alone.
pub fn bucket(name: &[u8]) -> (code: Vec<u8>)
    ensures
        code@ == bucket_of(name@),
{
    let digest = md5_of(name);
    bucket_for(digest.as_slice())
}

/// Where a chart folder belongs: under the destination by its own name, in
/// the bucket of that name where the destination is sharded. A folder
/// without a name of its own belongs nowhere.
pub open spec fn target_of(dir: PathModel, dest_dir: PathModel, shard: bool) -> Option<PathModel> {
    match dir.file_name() {
        Some(name) => Some(
            if shard {
                dest_dir.join(bucket_of(name)).join(name)
            } else {
                dest_dir.join(name)
            },
        ),
        None => None,
    }
}

/// The move that brings a chart folder to where it belongs, unless it is there.
pub open spec fn relocation_of(dir: PathModel, dest_dir: PathModel, shard: bool) -> Option<
    MoveModel,
> {
    match target_of(dir, dest_dir, shard) {
        Some(dest) => if dest != dir {
            Some(MoveModel { from: dir, dest })
        } else {
            None
        },
        None => None,
    }
}

/// The moves that bring the folders to where they belong, in the order of
/// the folders.
pub open spec fn relocations(dirs: Seq<PathModel>, dest_dir: PathModel, shard: bool) -> Seq<
    MoveModel,
>
    decreases dirs.len(),
{
    if dirs.len() == 0 {
        Seq::empty()
    } else {
        let before = relocations(dirs.drop_last(), dest_dir, shard);
        match relocation_of(dirs.last(), dest_dir, shard) {
            Some(pair) => before.push(pair),
            None => before,
        }
    }
}

/// Where the chart folder `dir` belongs under `dest_dir`, if anywhere.
pub fn move_target(dir: &TreePath, dest_dir: &TreePath, shard: bool) -> (dest: Option<TreePath>)
    ensures
        match dest {
            Some(to) => target_of(dir@, dest_dir@, shard) == Some(to@),
            None => target_of(dir@, dest_dir@, shard) is None,
        },
{
    match dir.file_name() {
        Some(name) => {
            if shard {
                let code = bucket(name.as_slice());
                Some(dest_dir.join(code.as_slice()).join(name.as_slice()))
            } else {
                Some(dest_dir.join(name.as_slice()))
            }
        },
        None => None,
    }
}

/// The moves that bring the given folders to where they belong under
/// `dest_dir`.
pub fn relocate(dirs: &Vec<TreePath>, dest_dir: &TreePath, shard: bool) -> (pairs: Vec<DirMove>)
    ensures
        views(pairs@) == relocations(views(dirs@), dest_dir@, shard),
{
    let ghost all = views(dirs@);
    let mut pairs: Vec<DirMove> = Vec::new();
    let mut i: usize = 0;
    assert(views(pairs@) =~= relocations(all.subrange(0, 0), dest_dir@, shard));
    while i < dirs.len()
        invariant
            i <= dirs.len(),
            all == views(dirs@),
            views(pairs@) == relocations(all.subrange(0, i as int), dest_dir@, shard),
        decreases dirs.len() - i,
    {
        let dir = &dirs[i];
        proof {
            assert(all.subrange(0, i + 1).drop_last() == all.subrange(0, i as int));
            assert(all.subrange(0, i + 1).last() == dir@);
        }
        match move_target(dir, dest_dir, shard) {
            Some(dest) => {
                if !dest.same_as(dir) {
                    let pair = DirMove { from: dir.duplicate(), dest };
                    proof {
                        lemma_views_push(pairs@, pair);
                    }
                    pairs.push(pair);
                }
            },
            None => {},
        }
        i += 1;
    }
    assert(all.subrange(0, dirs.len() as int) == all);
    pairs
}

/// The reconstruct stage: the moves that bring every chart folder of the
/// index to where it belongs under `dest_dir`, directly or, with `shard`, in
/// the bucket of its name. Folders that are in place give no move. Whether a
/// move is carried out is decided when its turn comes, by
/// [`relocate_action`]; after the last, the tree that was indexed is cleared
/// of its empty directories, as [`prune_dirs`] says.
pub fn reconstruct(index: &ChartHashes, dest_dir: &TreePath, shard: bool) -> (pairs: Vec<DirMove>)
    ensures
        views(pairs@) == relocations(canonical_parents(index@), dest_dir@, shard),
{
    let parents = index.parents();
    relocate(&parents, dest_dir, shard)
}

/// What is done about a relocation when its turn comes.
#[derive(Debug, Clone, Copy, PartialEq, Eq, Structural)]
pub enum RelocateAction {
    /// The folder is moved to where it belongs.
    Move,
    /// A dry run: the move is reported and nothing is moved.
    DryRun,
    /// Something is there already: the move is called off with a warning,
    /// and both stay as they are.
    Cancel,
}

/// What is done about a relocation whose destination does or does not
/// exist: nothing is ever moved onto something that is there, and a dry run
/// moves nothing.
pub open spec fn relocation_action(dest_exists: bool, dryrun: bool) -> RelocateAction {
    if dest_exists {
        RelocateAction::Cancel
    } else if dryrun {
        RelocateAction::DryRun
    } else {
        RelocateAction::Move
    }
}

/// What is done about a relocation whose destination does or does not exist.
pub fn relocate_action(dest_exists: bool, dryrun: bool) -> (action: RelocateAction)
    ensures
        action == relocation_action(dest_exists, dryrun),
{
    if dest_exists {
        RelocateAction::Cancel
    } else if dryrun {
        RelocateAction::DryRun
    } else {
        RelocateAction::Move
    }
}

/// The directories that are removed once the folders are relocated: the
/// empty ones directly inside the tree, and none in a dry run.
pub open spec fn pruned(target_dir: PathModel, entries: Seq<SubdirModel>, dryrun: bool) -> Seq<
    PathModel,
> {
    if dryrun {
        Seq::empty()
    } else {
        empty_dirs(target_dir, entries)
    }
}

/// The directories to remove once the folders are relocated: the empty
/// directories directly inside `target_dir`, and none in a dry run.
pub fn prune_dirs(target_dir: &TreePath, entries: &Vec<SubdirInfo>, dryrun: bool) -> (doomed: Vec<
    TreePath,
>)
    ensures
        views(doomed@) == pruned(target_dir@, views(entries@), dryrun),
{
    if dryrun {
        let none: Vec<TreePath> = Vec::new();
        assert(views(none@) =~= Seq::<PathModel>::empty());
        none
    } else {
        remove_empty_dirs(target_dir, entries)
    }
}

/// A dry run of the reconstruct stage changes nothing, and passes over what
/// a real run passes over: whatever is on disk, no relocation is carried out
/// and no directory is removed, and a relocation is called off in a dry run
/// exactly where it is called off in a real one.
pub proof fn lemma_dry_run_relocates_nothing(
    dest_exists: bool,
    target_dir: PathModel,
    entries: Seq<SubdirModel>,
)
    ensures
        relocation_action(dest_exists, true) != RelocateAction::Move,
        relocation_action(dest_exists, true) == RelocateAction::Cancel <==> relocation_action(
            dest_exists,
            false,
        ) == RelocateAction::Cancel,
        pruned(target_dir, entries, true).len() == 0,
{
}

/// Nothing is ever relocated onto something that is there.
pub proof fn lemma_existing_target_is_kept(dryrun: bool)
    ensures
        relocation_action(true, dryrun) == RelocateAction::Cancel,
{
}

/// The folders after a pass in which every relocation was carried out: each
/// where it belongs, or where it was if it belongs nowhere.
pub open spec fn relocated(dirs: Seq<PathModel>, dest_dir: PathModel, shard: bool) -> Seq<
    PathModel,
> {
    Seq::new(
        dirs.len(),
        |k: int|
            match target_of(dirs[k], dest_dir, shard) {
                Some(dest) => dest,
                None => dirs[k],
            },
    )
}

/// After a pass in which every relocation was carried out, a second pass
/// finds every folder in place: it relocates nothing.
pub proof fn lemma_second_pass_relocates_nothing(
    dirs: Seq<PathModel>,
    dest_dir: PathModel,
    shard: bool,
)
    ensures
        relocations(relocated(dirs, dest_dir, shard), dest_dir, shard).len() == 0,
    decreases dirs.len(),
{
    let after = relocated(dirs, dest_dir, shard);
    if dirs.len() > 0 {
        lemma_second_pass_relocates_nothing(dirs.drop_last(), dest_dir, shard);
        assert(after.drop_last() =~= relocated(dirs.drop_last(), dest_dir, shard));
        let dir = dirs.last();
        assert(after.last() == after[dirs.len() - 1]);
        if target_of(dir, dest_dir, shard) is Some {
            lemma_relocated_folder_is_in_place(dir, dest_dir, shard);
        }
    }
}

/// A folder that is where it belongs stays there: once moved, a second pass
/// finds it in place.
pub proof fn lemma_relocated_folder_is_in_place(dir: PathModel, dest_dir: PathModel, shard: bool)
    requires
        target_of(dir, dest_dir, shard) is Some,
    ensures
        relocation_of(target_of(dir, dest_dir, shard)->0, dest_dir, shard) is None,
{
    let name = dir.file_name()->0;
    let dest = target_of(dir, dest_dir, shard)->0;
    assert(dest.parts.last() == name);
    assert(dest.file_name() == Some(name));
}

} // verus!
