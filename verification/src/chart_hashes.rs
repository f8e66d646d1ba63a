//! The content-addressed index of the chart files in a tree.
//!
//! A scan hands over every chart file it met, each with the digest of its
//! bytes. The index groups the files by digest, in the order in which they were
//! met, and derives from the groups the chart folders that the other stages
//! work on.

use crate::lists::{
    distinct, first_where, holds_where, lemma_distinct, lemma_filter_keeps_distinct,
    lemma_first_where, lemma_first_where_is,
};
use crate::path::{ascii, bytes_eq_str, lemma_views_push, views, PathModel, TreePath};
use sha2::{Digest, Sha256};
use vstd::prelude::*;
use vstd::string::StringSliceAdditionalSpecFns;

verus! {

/// The file extensions that mark a chart file, in lower case.
pub const BMS_EXTENSIONS: [&'static str; 4] = ["bms", "bml", "bme", "pms"];

/// An ASCII letter in lower case; any other byte unchanged.
pub open spec fn lower(b: u8) -> u8 {
    if 'A' as u8 <= b && b <= 'Z' as u8 {
        (b + 32) as u8
    } else {
        b
    }
}

/// A byte string with its ASCII letters in lower case.
pub open spec fn lowered(s: Seq<u8>) -> Seq<u8> {
    Seq::new(s.len(), |i: int| lower(s[i]))
}

/// The position of the last `.` in a name, or -1 where there is none.
pub open spec fn last_dot(name: Seq<u8>) -> int
    decreases name.len(),
{
    if name.len() == 0 {
        -1
    } else if name.last() == '.' as u8 {
        name.len() - 1
    } else {
        last_dot(name.drop_last())
    }
}

/// The extension of a file name: what follows its last `.`, unless the name
/// holds no `.` or only a leading one.
pub open spec fn extension_of(name: Seq<u8>) -> Option<Seq<u8>> {
    let dot = last_dot(name);
    if dot <= 0 {
        None
    } else {
        Some(name.subrange(dot + 1, name.len() as int))
    }
}

/// Whether an extension is, letter case aside, one of [`BMS_EXTENSIONS`].
pub open spec fn is_chart_extension(ext: Seq<u8>) -> bool {
    let e = lowered(ext);
    e == ascii("bms"@) || e == ascii("bml"@) || e == ascii("bme"@) || e == ascii("pms"@)
}

/// Whether a path names a chart file.
pub open spec fn is_chart_file(path: PathModel) -> bool {
    match path.file_name() {
        Some(name) => match extension_of(name) {
            Some(ext) => is_chart_extension(ext),
            None => false,
        },
        None => false,
    }
}

/// The position of the last `.` in `name`, as [`last_dot`] gives it.
fn find_last_dot(name: &[u8]) -> (dot: Option<usize>)
    ensures
        match dot {
            Some(i) => last_dot(name@) == i && i < name.len(),
            None => last_dot(name@) == -1,
        },
{
    let mut i: usize = name.len();
    assert(name@ == name@.subrange(0, name.len() as int));
    while i > 0
        invariant
            i <= name.len(),
            last_dot(name@) == last_dot(name@.subrange(0, i as int)),
        decreases i,
    {
        let ghost head = name@.subrange(0, i as int);
        assert(head.last() == name@[i - 1]);
        if name[i - 1] == '.' as u8 {
            return Some(i - 1);
        }
        assert(head.drop_last() == name@.subrange(0, i - 1));
        i -= 1;
    }
    None
}

/// The bytes of `name` from `from` on, ASCII letters in lower case.
fn lowered_tail(name: &[u8], from: usize) -> (tail: Vec<u8>)
    requires
        from <= name.len(),
    ensures
        tail@ == lowered(name@.subrange(from as int, name.len() as int)),
{
    let mut tail: Vec<u8> = Vec::new();
    let mut i: usize = from;
    while i < name.len()
        invariant
            from <= i <= name.len(),
            tail@ == lowered(name@.subrange(from as int, i as int)),
        decreases name.len() - i,
    {
        let b = name[i];
        let low: u8 = if b >= 'A' as u8 && b <= 'Z' as u8 {
            b + 32
        } else {
            b
        };
        tail.push(low);
        assert(tail@ =~= lowered(name@.subrange(from as int, i + 1)));
        i += 1;
    }
    tail
}

/// The extension of a file name: what follows its last `.`, unless the name
/// holds no `.` or only a leading one.
pub fn file_extension(name: &[u8]) -> (ext: Option<Vec<u8>>)
    ensures
        match ext {
            Some(e) => extension_of(name@) == Some(e@),
            None => extension_of(name@) is None,
        },
{
    match find_last_dot(name) {
        None => None,
        Some(dot) => {
            if dot == 0 {
                None
            } else {
                let mut ext: Vec<u8> = Vec::new();
                let mut i: usize = dot + 1;
                while i < name.len()
                    invariant
                        dot + 1 <= i <= name.len(),
                        ext@ == name@.subrange(dot + 1, i as int),
                    decreases name.len() - i,
                {
                    ext.push(name[i]);
                    assert(name@.subrange(dot + 1, i + 1) == name@.subrange(dot + 1, i as int).push(
                        name@[i as int],
                    ));
                    i += 1;
                }
                Some(ext)
            }
        },
    }
}

/// Whether `path` names a chart file: whether its file name has an extension
/// that is, letter case aside, one of [`BMS_EXTENSIONS`].
pub fn filter_bms_files(path: &TreePath) -> (is_chart: bool)
    ensures
        is_chart == is_chart_file(path@),
{
    match path.file_name() {
        None => false,
        Some(name) => {
            match find_last_dot(name.as_slice()) {
                None => false,
                Some(dot) => {
                    if dot == 0 {
                        false
                    } else {
                        let ext = lowered_tail(name.as_slice(), dot + 1);
                        proof {
                            reveal_strlit("bms");
                            reveal_strlit("bml");
                            reveal_strlit("bme");
                            reveal_strlit("pms");
                            lemma_ascii_bytes("bms");
                            lemma_ascii_bytes("bml");
                            lemma_ascii_bytes("bme");
                            lemma_ascii_bytes("pms");
                        }
                        bytes_eq_str(ext.as_slice(), BMS_EXTENSIONS[0])
                            || bytes_eq_str(ext.as_slice(), BMS_EXTENSIONS[1])
                            || bytes_eq_str(ext.as_slice(), BMS_EXTENSIONS[2])
                            || bytes_eq_str(ext.as_slice(), BMS_EXTENSIONS[3])
                    }
                },
            }
        },
    }
}

/// The bytes of an ASCII text are its characters, one byte each.
pub proof fn lemma_ascii_bytes(text: &str)
    requires
        text.is_ascii(),
    ensures
        text.spec_bytes() == ascii(text@),
{
    vstd::string::is_ascii_spec_bytes(text);
}

/// Whether a path starts with a component that keeps it out of the index:
/// the recycle bin, or `.`.
pub open spec fn is_excluded(path: PathModel) -> bool {
    &&& !path.absolute
    &&& path.parts.len() > 0
    &&& (path.parts[0] == ascii("$RECYCLE.BIN"@) || path.parts[0] == ascii("."@))
}

/// Whether a scan hashes the file at `path`: a chart file outside the excluded places.
pub open spec fn is_indexed(path: PathModel) -> bool {
    is_chart_file(path) && !is_excluded(path)
}

/// Whether `path` starts with a component that keeps it out of the index.
pub fn excluded(path: &TreePath) -> (out: bool)
    ensures
        out == is_excluded(path@),
{
    if path.absolute || path.parts.len() == 0 {
        return false;
    }
    proof {
        reveal_strlit("$RECYCLE.BIN");
        reveal_strlit(".");
        lemma_ascii_bytes("$RECYCLE.BIN");
        lemma_ascii_bytes(".");
    }
    let first = &path.parts[0];
    assert(path@.parts[0] == first@);
    bytes_eq_str(first.as_slice(), "$RECYCLE.BIN") || bytes_eq_str(first.as_slice(), ".")
}

/// Whether a scan hashes the file at `path`.
pub fn indexed(path: &TreePath) -> (wanted: bool)
    ensures
        wanted == is_indexed(path@),
{
    filter_bms_files(path) && !excluded(path)
}

/// The SHA-256 digest of `content`, written as 64 hexadecimal digits in lower case.
pub uninterp spec fn sha256_hex(content: Seq<u8>) -> Seq<char>;

/// Calls `sha2::Sha256::digest` on the bytes and formats the digest with
/// `{:x}`. The contract only names the outcome: the same bytes give the same
/// text.
#[verifier::external_body]
fn sha256_hex_of(content: &[u8]) -> (hex: String)
    ensures
        hex@ == sha256_hex(content@),
{
    format!("{:x}", Sha256::digest(content))
}

/// The content hash of a chart file: the key under which the index files it.
pub fn hash_chart(content: &[u8]) -> (hash: String)
    ensures
        hash@ == sha256_hex(content@),
{
    sha256_hex_of(content)
}

/// What a [`ScannedChart`] stands for.
pub struct ScannedModel {
    pub path: PathModel,
    pub hash: Option<Seq<char>>,
}

/// One file that a scan met: its path and, where its bytes could be read,
/// their hash.
#[derive(Debug)]
pub struct ScannedChart {
    pub path: TreePath,
    pub hash: Option<String>,
}

impl View for ScannedChart {
    type V = ScannedModel;

    open spec fn view(&self) -> ScannedModel {
        ScannedModel {
            path: self.path@,
            hash: match self.hash {
                Some(h) => Some(h@),
                None => None,
            },
        }
    }
}

/// What a [`HashGroup`] stands for.
pub struct GroupModel {
    pub hash: Seq<char>,
    pub paths: Seq<PathModel>,
}

/// The chart files that share one content hash, in the order of their discovery.
#[derive(Debug)]
pub struct HashGroup {
    pub hash: String,
    pub paths: Vec<TreePath>,
}

impl View for HashGroup {
    type V = GroupModel;

    open spec fn view(&self) -> GroupModel {
        GroupModel { hash: self.hash@, paths: views(self.paths@) }
    }
}

/// Whether some group is filed under `hash`.
pub open spec fn has_hash(groups: Seq<GroupModel>, hash: Seq<char>) -> bool {
    holds_where(groups, |group: GroupModel| group.hash == hash)
}

/// The position of the first group filed under `hash`.
pub open spec fn position_of(groups: Seq<GroupModel>, hash: Seq<char>) -> int {
    first_where(groups, |group: GroupModel| group.hash == hash)
}

/// The groups after one more file was filed: appended to the group of its
/// hash, or alone in a new last group.
pub open spec fn filed(groups: Seq<GroupModel>, hash: Seq<char>, path: PathModel) -> Seq<
    GroupModel,
> {
    if has_hash(groups, hash) {
        let at = position_of(groups, hash);
        groups.update(at, GroupModel { hash, paths: groups[at].paths.push(path) })
    } else {
        groups.push(GroupModel { hash, paths: seq![path] })
    }
}

/// Whether the index takes a scanned file in: it is wanted and was hashed.
pub open spec fn is_kept(file: ScannedModel) -> bool {
    is_indexed(file.path) && file.hash is Some
}

/// Whether a scanned file was wanted but could not be hashed.
pub open spec fn is_dropped(file: ScannedModel) -> bool {
    is_indexed(file.path) && file.hash is None
}

/// The groups that a scan gives: its files filed one after the other.
pub open spec fn grouped(scanned: Seq<ScannedModel>) -> Seq<GroupModel>
    decreases scanned.len(),
{
    if scanned.len() == 0 {
        Seq::empty()
    } else {
        let before = grouped(scanned.drop_last());
        let file = scanned.last();
        if is_kept(file) {
            filed(before, file.hash->0, file.path)
        } else {
            before
        }
    }
}

/// How many files of a scan were wanted but could not be hashed.
pub open spec fn dropped_count(scanned: Seq<ScannedModel>) -> nat
    decreases scanned.len(),
{
    if scanned.len() == 0 {
        0
    } else {
        dropped_count(scanned.drop_last()) + if is_dropped(scanned.last()) {
            1nat
        } else {
            0nat
        }
    }
}

/// Whether groups are well formed: no two filed under one hash, none empty.
pub open spec fn well_grouped(groups: Seq<GroupModel>) -> bool {
    &&& forall|i: int, j: int|
        0 <= i < j < groups.len() ==> (#[trigger] groups[i]).hash != (#[trigger] groups[j]).hash
    &&& forall|i: int| 0 <= i < groups.len() ==> (#[trigger] groups[i]).paths.len() > 0
}

/// Filing a file keeps groups well formed.
pub proof fn lemma_filed_well_grouped(groups: Seq<GroupModel>, hash: Seq<char>, path: PathModel)
    requires
        well_grouped(groups),
    ensures
        well_grouped(filed(groups, hash, path)),
{
    let after = filed(groups, hash, path);
    if has_hash(groups, hash) {
        let at = position_of(groups, hash);
        lemma_first_where(groups, |group: GroupModel| group.hash == hash);
        assert forall|i: int, j: int| 0 <= i < j < after.len() implies (#[trigger] after[i]).hash
            != (#[trigger] after[j]).hash by {
            assert(after[i].hash == groups[i].hash);
            assert(after[j].hash == groups[j].hash);
        }
        assert forall|i: int| 0 <= i < after.len() implies (#[trigger] after[i]).paths.len()
            > 0 by {
            assert(groups[i].paths.len() > 0);
        }
    } else {
        assert forall|i: int, j: int| 0 <= i < j < after.len() implies (#[trigger] after[i]).hash
            != (#[trigger] after[j]).hash by {
            if j < groups.len() {
                assert(after[i].hash == groups[i].hash);
                assert(after[j].hash == groups[j].hash);
            } else {
                assert(after[i] == groups[i]);
            }
        }
        assert forall|i: int| 0 <= i < after.len() implies (#[trigger] after[i]).paths.len()
            > 0 by {
            if i < groups.len() {
                assert(after[i] == groups[i]);
            }
        }
    }
}

/// The groups of a scan are well formed.
pub proof fn lemma_grouped_well_grouped(scanned: Seq<ScannedModel>)
    ensures
        well_grouped(grouped(scanned)),
    decreases scanned.len(),
{
    if scanned.len() > 0 {
        lemma_grouped_well_grouped(scanned.drop_last());
        let file = scanned.last();
        if is_kept(file) {
            lemma_filed_well_grouped(grouped(scanned.drop_last()), file.hash->0, file.path);
        }
    }
}

/// Whether some group files `path` under `hash`.
pub open spec fn holds_file(groups: Seq<GroupModel>, hash: Seq<char>, path: PathModel) -> bool {
    exists|g: int|
        0 <= g < groups.len() && (#[trigger] groups[g]).hash == hash && groups[g].paths.contains(
            path,
        )
}

/// Whether a scan kept `path` under `hash`.
pub open spec fn was_kept(scanned: Seq<ScannedModel>, hash: Seq<char>, path: PathModel) -> bool {
    exists|k: int|
        0 <= k < scanned.len() && is_kept(#[trigger] scanned[k]) && scanned[k].hash == Some(hash)
            && scanned[k].path == path
}

/// Filing a file adds it to the groups under its hash, and adds nothing else.
pub proof fn lemma_filed_files(
    groups: Seq<GroupModel>,
    hash: Seq<char>,
    path: PathModel,
    other_hash: Seq<char>,
    other_path: PathModel,
)
    ensures
        holds_file(filed(groups, hash, path), other_hash, other_path) <==> holds_file(
            groups,
            other_hash,
            other_path,
        ) || (other_hash == hash && other_path == path),
{
    let after = filed(groups, hash, path);
    let at: int = if has_hash(groups, hash) {
        position_of(groups, hash)
    } else {
        groups.len() as int
    };
    if has_hash(groups, hash) {
        lemma_first_where(groups, |group: GroupModel| group.hash == hash);
        assert(after[at].paths == groups[at].paths.push(path));
    } else {
        assert(after[at].paths == seq![path]);
    }
    assert(after[at].hash == hash);
    assert(after[at].paths.last() == path);
    if holds_file(groups, other_hash, other_path) {
        let g = choose|g: int|
            0 <= g < groups.len() && (#[trigger] groups[g]).hash == other_hash
                && groups[g].paths.contains(other_path);
        let i = choose|i: int| 0 <= i < groups[g].paths.len() && groups[g].paths[i] == other_path;
        assert(after[g].hash == other_hash);
        assert(after[g].paths[i] == other_path);
    }
    if other_hash == hash && other_path == path {
        assert(after[at].paths[after[at].paths.len() - 1] == path);
    }
    if holds_file(after, other_hash, other_path) {
        let g = choose|g: int|
            0 <= g < after.len() && (#[trigger] after[g]).hash == other_hash
                && after[g].paths.contains(other_path);
        let i = choose|i: int| 0 <= i < after[g].paths.len() && after[g].paths[i] == other_path;
        if g == at {
            if i < after[g].paths.len() - 1 {
                assert(groups[g].paths[i] == other_path);
                assert(groups[g].hash == other_hash);
            }
        } else {
            assert(groups[g] == after[g]);
        }
    }
}

/// The index holds what the scan kept: a file is filed under a hash if the
/// scan kept it under that hash, and only then.
pub proof fn lemma_grouped_files(scanned: Seq<ScannedModel>, hash: Seq<char>, path: PathModel)
    ensures
        holds_file(grouped(scanned), hash, path) <==> was_kept(scanned, hash, path),
    decreases scanned.len(),
{
    if scanned.len() > 0 {
        let shorter = scanned.drop_last();
        let file = scanned.last();
        lemma_grouped_files(shorter, hash, path);
        if is_kept(file) {
            lemma_filed_files(grouped(shorter), file.hash->0, file.path, hash, path);
        }
        if was_kept(shorter, hash, path) {
            let k = choose|k: int|
                0 <= k < shorter.len() && is_kept(#[trigger] shorter[k]) && shorter[k].hash == Some(
                    hash,
                ) && shorter[k].path == path;
            assert(scanned[k] == shorter[k]);
        }
        if is_kept(file) && file.hash == Some(hash) && file.path == path {
            assert(scanned[scanned.len() - 1] == file);
        }
        if was_kept(scanned, hash, path) {
            let k = choose|k: int|
                0 <= k < scanned.len() && is_kept(#[trigger] scanned[k]) && scanned[k].hash == Some(
                    hash,
                ) && scanned[k].path == path;
            if k < shorter.len() {
                assert(shorter[k] == scanned[k]);
            }
        }
    }
}

/// Whether one of `dirs` lies above `dir`.
pub open spec fn has_ancestor_in(dirs: Seq<PathModel>, dir: PathModel) -> bool {
    exists|k: int| 0 <= k < dirs.len() && (#[trigger] dirs[k]).is_ancestor_of(dir)
}

/// The directories of `dirs` that lie under no other of them, in their order.
pub open spec fn without_nested(dirs: Seq<PathModel>) -> Seq<PathModel> {
    dirs.filter(|dir: PathModel| !has_ancestor_in(dirs, dir))
}

/// For each group in turn, the directory that holds its first file, where
/// there is one.
pub open spec fn first_parents(groups: Seq<GroupModel>) -> Seq<PathModel>
    decreases groups.len(),
{
    if groups.len() == 0 {
        Seq::empty()
    } else {
        let before = first_parents(groups.drop_last());
        let group = groups.last();
        if group.paths.len() > 0 && group.paths[0].parent() is Some {
            before.push(group.paths[0].parent()->0)
        } else {
            before
        }
    }
}

/// The chart folders of an index: the directories of the first file of each
/// group, each once, without those that lie under another of them.
pub open spec fn canonical_parents(groups: Seq<GroupModel>) -> Seq<PathModel> {
    without_nested(distinct(first_parents(groups)))
}

/// No directory that [`without_nested`] keeps lies above another that it keeps.
pub proof fn lemma_without_nested_is_flat(dirs: Seq<PathModel>, a: PathModel, b: PathModel)
    requires
        without_nested(dirs).contains(a),
        without_nested(dirs).contains(b),
    ensures
        !a.is_ancestor_of(b),
{
    let keep = |dir: PathModel| !has_ancestor_in(dirs, dir);
    dirs.lemma_filter_contains_rev(keep, a);
    let i = choose|i: int| 0 <= i < dirs.filter(keep).len() && dirs.filter(keep)[i] == b;
    dirs.lemma_filter_pred(keep, i);
    let k = choose|k: int| 0 <= k < dirs.len() && dirs[k] == a;
    assert(dirs[k] == a);
}

/// The chart folders of an index are pairwise distinct, and none lies above another.
pub proof fn lemma_canonical_parents_are_flat(groups: Seq<GroupModel>)
    ensures
        canonical_parents(groups).no_duplicates(),
        forall|i: int, j: int|
            0 <= i < canonical_parents(groups).len() && 0 <= j < canonical_parents(groups).len()
                ==> !(#[trigger] canonical_parents(groups)[i]).is_ancestor_of(
                #[trigger] canonical_parents(groups)[j],
            ),
{
    let dirs = distinct(first_parents(groups));
    let kept = canonical_parents(groups);
    lemma_distinct(first_parents(groups));
    lemma_filter_keeps_distinct(dirs, |dir: PathModel| !has_ancestor_in(dirs, dir));
    assert forall|i: int, j: int| 0 <= i < kept.len() && 0 <= j < kept.len() implies !(
    #[trigger] kept[i]).is_ancestor_of(#[trigger] kept[j]) by {
        lemma_without_nested_is_flat(dirs, kept[i], kept[j]);
    }
}

/// Whether `dirs` holds `dir`.
fn holds_path(dirs: &Vec<TreePath>, dir: &TreePath) -> (found: bool)
    ensures
        found == views(dirs@).contains(dir@),
{
    let mut k: usize = 0;
    while k < dirs.len()
        invariant
            k <= dirs.len(),
            forall|m: int| 0 <= m < k ==> (#[trigger] views(dirs@)[m]) != dir@,
        decreases dirs.len() - k,
    {
        if dirs[k].same_as(dir) {
            assert(views(dirs@)[k as int] == dir@);
            return true;
        }
        k += 1;
    }
    false
}

/// Whether one of `dirs` lies above `dir`.
fn has_ancestor(dirs: &Vec<TreePath>, dir: &TreePath) -> (found: bool)
    ensures
        found == has_ancestor_in(views(dirs@), dir@),
{
    let mut k: usize = 0;
    while k < dirs.len()
        invariant
            k <= dirs.len(),
            forall|m: int| 0 <= m < k ==> !(#[trigger] views(dirs@)[m]).is_ancestor_of(dir@),
        decreases dirs.len() - k,
    {
        if dirs[k].is_ancestor_of(dir) {
            assert(views(dirs@)[k as int].is_ancestor_of(dir@));
            return true;
        }
        k += 1;
    }
    false
}

/// Drops from `dirs` every directory that lies under another of them, so that
/// no directory is later moved into one that is moved itself.
pub fn filter_subdir(dirs: &Vec<TreePath>) -> (kept: Vec<TreePath>)
    ensures
        views(kept@) == without_nested(views(dirs@)),
        forall|i: int, j: int|
            0 <= i < kept.len() && 0 <= j < kept.len() ==> !(#[trigger] kept@[i])@.is_ancestor_of(
                (#[trigger] kept@[j])@,
            ),
{
    let ghost all = views(dirs@);
    let ghost keep = |dir: PathModel| !has_ancestor_in(all, dir);
    let mut kept: Vec<TreePath> = Vec::new();
    let mut i: usize = 0;
    proof {
        reveal(Seq::filter);
        assert(all.subrange(0, 0).filter(keep) =~= views(kept@));
    }
    while i < dirs.len()
        invariant
            i <= dirs.len(),
            all == views(dirs@),
            keep == |dir: PathModel| !has_ancestor_in(all, dir),
            views(kept@) == all.subrange(0, i as int).filter(keep),
        decreases dirs.len() - i,
    {
        proof {
            reveal(Seq::filter);
            assert(all.subrange(0, i + 1).drop_last() == all.subrange(0, i as int));
            assert(all.subrange(0, i + 1).last() == dirs@[i as int]@);
        }
        if !has_ancestor(dirs, &dirs[i]) {
            let dir = dirs[i].duplicate();
            proof {
                lemma_views_push(kept@, dir);
            }
            kept.push(dir);
        }
        i += 1;
    }
    proof {
        assert(all.subrange(0, dirs.len() as int) == all);
        assert forall|i: int, j: int| 0 <= i < kept.len() && 0 <= j < kept.len() implies !(
        #[trigger] kept@[i])@.is_ancestor_of((#[trigger] kept@[j])@) by {
            assert(views(kept@)[i] == kept@[i]@);
            assert(views(kept@)[j] == kept@[j]@);
            lemma_without_nested_is_flat(all, kept@[i]@, kept@[j]@);
        }
    }
    kept
}

/// The index of a tree: its chart files grouped by content hash.
#[derive(Debug)]
pub struct ChartHashes {
    hash_with_dir: Vec<HashGroup>,
    dropped: usize,
}

impl View for ChartHashes {
    type V = Seq<GroupModel>;

    closed spec fn view(&self) -> Seq<GroupModel> {
        views(self.hash_with_dir@)
    }
}

impl ChartHashes {
    /// Whether the index is well formed: no two groups under one hash, no group empty.
    pub open spec fn wf(&self) -> bool {
        well_grouped(self@)
    }

    /// How many wanted files the scan could not hash.
    pub closed spec fn dropped_files(&self) -> nat {
        self.dropped as nat
    }

    /// Files `path` under `hash`: in the group of that hash, or in a new last group.
    fn file(&mut self, hash: String, path: TreePath)
        ensures
            final(self)@ == filed(old(self)@, hash@, path@),
            final(self).dropped == old(self).dropped,
    {
        let mut i: usize = 0;
        while i < self.hash_with_dir.len()
            invariant
                i <= self.hash_with_dir.len(),
                *self == *old(self),
                forall|j: int| 0 <= j < i ==> (#[trigger] self@[j]).hash != hash@,
            decreases self.hash_with_dir.len() - i,
        {
            if self.hash_with_dir[i].hash == hash {
                assert(self@[i as int].hash == hash@);
                proof {
                    lemma_first_where_is(self@, |group: GroupModel| group.hash == hash@, i as int);
                }
                proof {
                    lemma_views_push(self.hash_with_dir@[i as int].paths@, path);
                }
                self.hash_with_dir[i].paths.push(path);
                assert(self@ =~= filed(old(self)@, hash@, path@));
                return;
            }
            assert(self@[i as int].hash != hash@);
            i += 1;
        }
        assert(!has_hash(self@, hash@));
        let mut paths: Vec<TreePath> = Vec::new();
        proof {
            lemma_views_push(paths@, path);
        }
        paths.push(path);
        let group = HashGroup { hash, paths };
        proof {
            lemma_views_push(self.hash_with_dir@, group);
            assert(group@.paths =~= seq![path@]);
        }
        self.hash_with_dir.push(group);
    }

    /// The index of a scan. Of the files handed over it keeps the chart files
    /// outside the excluded places whose bytes were hashed, grouped by hash in
    /// the order in which they came; the wanted files without a hash are
    /// counted and left out.
    pub fn new(scanned: &Vec<ScannedChart>) -> (index: ChartHashes)
        ensures
            index@ == grouped(views(scanned@)),
            index.dropped_files() == dropped_count(views(scanned@)),
            index.wf(),
    {
        let ghost all = views(scanned@);
        let mut index = ChartHashes { hash_with_dir: Vec::new(), dropped: 0 };
        let mut i: usize = 0;
        assert(index@ =~= grouped(all.subrange(0, 0)));
        while i < scanned.len()
            invariant
                i <= scanned.len(),
                all == views(scanned@),
                index@ == grouped(all.subrange(0, i as int)),
                index.dropped == dropped_count(all.subrange(0, i as int)),
                index.dropped <= i,
            decreases scanned.len() - i,
        {
            let file = &scanned[i];
            proof {
                assert(all.subrange(0, i + 1).drop_last() == all.subrange(0, i as int));
                assert(all.subrange(0, i + 1).last() == file@);
            }
            if indexed(&file.path) {
                match &file.hash {
                    Some(hash) => {
                        index.file(hash.clone(), file.path.duplicate());
                    },
                    None => {
                        index.dropped += 1;
                    },
                }
            }
            i += 1;
        }
        proof {
            assert(all.subrange(0, scanned.len() as int) == all);
            lemma_grouped_well_grouped(all);
        }
        index
    }

    /// The groups, in the order in which their first files were discovered.
    pub fn hashes(&self) -> (groups: &Vec<HashGroup>)
        ensures
            views(groups@) == self@,
    {
        &self.hash_with_dir
    }

    /// The chart folders of the index: for each group the directory of its
    /// first file, each once and in the order of discovery, without the
    /// directories that lie under another of them.
    pub fn parents(&self) -> (dirs: Vec<TreePath>)
        ensures
            views(dirs@) == canonical_parents(self@),
            views(dirs@).no_duplicates(),
            forall|i: int, j: int|
                0 <= i < dirs.len() && 0 <= j < dirs.len() ==> !(#[trigger] dirs@[i])@.is_ancestor_of(
                    (#[trigger] dirs@[j])@,
                ),
    {
        let mut found: Vec<TreePath> = Vec::new();
        let mut i: usize = 0;
        assert(views(found@) =~= distinct(first_parents(self@.subrange(0, 0))));
        while i < self.hash_with_dir.len()
            invariant
                i <= self.hash_with_dir.len(),
                views(found@) == distinct(first_parents(self@.subrange(0, i as int))),
            decreases self.hash_with_dir.len() - i,
        {
            let group = &self.hash_with_dir[i];
            proof {
                assert(self@.subrange(0, i + 1).drop_last() == self@.subrange(0, i as int));
                assert(self@.subrange(0, i + 1).last() == group@);
            }
            if group.paths.len() > 0 {
                assert(group@.paths[0] == group.paths@[0]@);
                match group.paths[0].parent() {
                    Some(dir) => {
                        assert(first_parents(self@.subrange(0, i as int)).push(dir@).drop_last()
                            == first_parents(self@.subrange(0, i as int)));
                        if !holds_path(&found, &dir) {
                            proof {
                                lemma_views_push(found@, dir);
                            }
                            found.push(dir);
                        }
                    },
                    None => {},
                }
            }
            i += 1;
        }
        proof {
            assert(self@.subrange(0, self.hash_with_dir.len() as int) == self@);
            lemma_canonical_parents_are_flat(self@);
        }
        let dirs = filter_subdir(&found);
        dirs
    }

    /// How many wanted files the scan could not hash.
    pub fn dropped(&self) -> (count: usize)
        ensures
            count == self.dropped_files(),
    {
        self.dropped
    }
}

} // verus!
