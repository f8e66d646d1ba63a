//! Installing charts from archives.
//!
//! The archives of a directory are unpacked into a fresh directory under the
//! library, every file directly into it, whatever directory the archive held
//! it in.

use crate::chart_hashes::{extension_of, file_extension};
use crate::fsutil::{EntryInfo, EntryModel};
use crate::path::{ascii, bytes_clone, bytes_eq_str, lemma_views_push, views, PathModel, TreePath};
use crate::text::{
    can_decode, chars_of, decodable_len, decode_shift_jis, shift_jis_decoded, text_of, utf8_text,
};
use vstd::prelude::*;
use vstd::string::StringSliceAdditionalSpecFns;
use vstd::utf8::{decode_utf8, encode_utf8, valid_utf8};

verus! {

/// The directories of a listing, as paths under `target_dir`, in their order.
pub open spec fn sub_dirs(target_dir: PathModel, entries: Seq<EntryModel>) -> Seq<PathModel>
    decreases entries.len(),
{
    if entries.len() == 0 {
        Seq::empty()
    } else {
        let before = sub_dirs(target_dir, entries.drop_last());
        if entries.last().is_dir {
            before.push(target_dir.join(entries.last().name))
        } else {
            before
        }
    }
}

/// The directories to install from when archives lie one level down: the
/// directories directly inside `target_dir`, in the order of its listing.
/// Each is installed from by [`install_from_dir`] and, unless the run is dry,
/// removed afterwards.
pub fn install_from_dirs(target_dir: &TreePath, entries: &Vec<EntryInfo>) -> (dirs: Vec<TreePath>)
    ensures
        views(dirs@) == sub_dirs(target_dir@, views(entries@)),
{
    let ghost all = views(entries@);
    let mut dirs: Vec<TreePath> = Vec::new();
    let mut i: usize = 0;
    assert(views(dirs@) =~= sub_dirs(target_dir@, all.subrange(0, 0)));
    while i < entries.len()
        invariant
            i <= entries.len(),
            all == views(entries@),
            views(dirs@) == sub_dirs(target_dir@, all.subrange(0, i as int)),
        decreases entries.len() - i,
    {
        let entry = &entries[i];
        proof {
            assert(all.subrange(0, i + 1).drop_last() == all.subrange(0, i as int));
            assert(all.subrange(0, i + 1).last() == entry@);
        }
        if entry.is_dir {
            let dir = target_dir.join(entry.name.as_slice());
            proof {
                lemma_views_push(dirs@, dir);
            }
            dirs.push(dir);
        }
        i += 1;
    }
    assert(all.subrange(0, entries.len() as int) == all);
    dirs
}

/// The kinds of archive that are unpacked.
#[derive(Debug, Clone, Copy, PartialEq, Eq, Structural)]
pub enum ArchiveKind {
    Zip,
    Rar,
}

/// The kind of archive that a file name tells, by its extension `zip` or
/// `rar` in lower case.
pub open spec fn archive_kind_of(name: Seq<u8>) -> Option<ArchiveKind> {
    match extension_of(name) {
        Some(ext) => if ext == ascii("zip"@) {
            Some(ArchiveKind::Zip)
        } else if ext == ascii("rar"@) {
            Some(ArchiveKind::Rar)
        } else {
            None
        },
        None => None,
    }
}

/// The kind of archive that a file name tells, if any.
pub fn archive_kind(name: &[u8]) -> (kind: Option<ArchiveKind>)
    ensures
        kind == archive_kind_of(name@),
{
    proof {
        reveal_strlit("zip");
        reveal_strlit("rar");
        vstd::string::is_ascii_spec_bytes("zip");
        vstd::string::is_ascii_spec_bytes("rar");
    }
    match file_extension(name) {
        Some(ext) => {
            if bytes_eq_str(ext.as_slice(), "zip") {
                Some(ArchiveKind::Zip)
            } else if bytes_eq_str(ext.as_slice(), "rar") {
                Some(ArchiveKind::Rar)
            } else {
                None
            }
        },
        None => None,
    }
}

/// What is done about an archive.
#[derive(Debug, Clone, Copy, PartialEq, Eq, Structural)]
pub enum ArchiveAction {
    /// The archive is unpacked and then removed.
    Extract,
    /// A dry run: the archive is reported and left alone.
    DryRun,
}

/// What an [`ArchiveStep`] stands for.
pub struct ArchiveModel {
    pub file: PathModel,
    pub kind: ArchiveKind,
    pub action: ArchiveAction,
}

/// One archive to install from.
#[derive(Debug)]
pub struct ArchiveStep {
    pub file: TreePath,
    pub kind: ArchiveKind,
    pub action: ArchiveAction,
}

impl View for ArchiveStep {
    type V = ArchiveModel;

    open spec fn view(&self) -> ArchiveModel {
        ArchiveModel { file: self.file@, kind: self.kind, action: self.action }
    }
}

/// What an [`InstallPlan`] stands for.
pub struct InstallModel {
    pub dest_dir: PathModel,
    pub archives: Seq<ArchiveModel>,
}

/// An installation: the directory that everything is unpacked into, and the
/// archives in their order. Once they are unpacked, the folders under the
/// directory are renamed after their charts.
#[derive(Debug)]
pub struct InstallPlan {
    pub dest_dir: TreePath,
    pub archives: Vec<ArchiveStep>,
}

impl View for InstallPlan {
    type V = InstallModel;

    open spec fn view(&self) -> InstallModel {
        InstallModel { dest_dir: self.dest_dir@, archives: views(self.archives@) }
    }
}

/// What is done about an archive in a run.
pub open spec fn archive_action(dryrun: bool) -> ArchiveAction {
    if dryrun {
        ArchiveAction::DryRun
    } else {
        ArchiveAction::Extract
    }
}

/// The archives among the names of a listing, in their order.
pub open spec fn archives_in(target_dir: PathModel, names: Seq<Seq<u8>>, dryrun: bool) -> Seq<
    ArchiveModel,
>
    decreases names.len(),
{
    if names.len() == 0 {
        Seq::empty()
    } else {
        let before = archives_in(target_dir, names.drop_last(), dryrun);
        match archive_kind_of(names.last()) {
            Some(kind) => before.push(
                ArchiveModel {
                    file: target_dir.join(names.last()),
                    kind,
                    action: archive_action(dryrun),
                },
            ),
            None => before,
        }
    }
}

/// Plans the installation of the archives that lie directly in
/// `target_dir`, given the names found there: every name with the extension
/// `zip` or `rar` is an archive, and all are unpacked into the directory
/// named `stamp` under `dest_dir`.
pub fn install_from_dir(
    target_dir: &TreePath,
    names: &Vec<Vec<u8>>,
    dest_dir: &TreePath,
    stamp: &str,
    dryrun: bool,
) -> (plan: InstallPlan)
    ensures
        plan@ == (InstallModel {
            dest_dir: dest_dir@.join(encode_utf8(stamp@)),
            archives: archives_in(target_dir@, views(names@), dryrun),
        }),
{
    let ghost all = views(names@);
    let mut archives: Vec<ArchiveStep> = Vec::new();
    let mut i: usize = 0;
    assert(views(archives@) =~= archives_in(target_dir@, all.subrange(0, 0), dryrun));
    while i < names.len()
        invariant
            i <= names.len(),
            all == views(names@),
            views(archives@) == archives_in(target_dir@, all.subrange(0, i as int), dryrun),
        decreases names.len() - i,
    {
        let name = &names[i];
        proof {
            assert(all.subrange(0, i + 1).drop_last() == all.subrange(0, i as int));
            assert(all.subrange(0, i + 1).last() == name@);
        }
        match archive_kind(name.as_slice()) {
            Some(kind) => {
                let step = ArchiveStep {
                    file: target_dir.join(name.as_slice()),
                    kind,
                    action: if dryrun {
                        ArchiveAction::DryRun
                    } else {
                        ArchiveAction::Extract
                    },
                };
                proof {
                    lemma_views_push(archives@, step);
                }
                archives.push(step);
            },
            None => {},
        }
        i += 1;
    }
    assert(all.subrange(0, names.len() as int) == all);
    InstallPlan { dest_dir: dest_dir.join(stamp.as_bytes()), archives }
}

/// The position of the last `/` among the first `end` characters, or -1.
pub open spec fn last_slash(name: Seq<char>, end: int) -> int
    decreases end,
{
    if end <= 0 {
        -1
    } else if name[end - 1] == '/' {
        end - 1
    } else {
        last_slash(name, end - 1)
    }
}

/// The base name among the first `end` characters of a path written with
/// `/`: its last part that is neither empty nor `.`, unless that part is `..`.
pub open spec fn base_name_within(name: Seq<char>, end: int) -> Option<Seq<char>>
    decreases end + 1,
{
    if end < 0 {
        None
    } else {
        let slash = last_slash(name, end);
        let part = name.subrange(slash + 1, end);
        if part.len() == 0 || part == seq!['.'] {
            if 0 <= slash < end {
                base_name_within(name, slash)
            } else {
                None
            }
        } else if part == seq!['.', '.'] {
            None
        } else {
            Some(part)
        }
    }
}

/// The base name of a path written with `/`.
pub open spec fn base_name_of(name: Seq<char>) -> Option<Seq<char>> {
    base_name_within(name, name.len() as int)
}

/// [`last_slash`] lies before `end`.
pub proof fn lemma_last_slash(name: Seq<char>, end: int)
    requires
        0 <= end <= name.len(),
    ensures
        -1 <= last_slash(name, end) < end || end == 0,
        last_slash(name, end) >= -1,
    decreases end,
{
    if end > 0 && name[end - 1] != '/' {
        lemma_last_slash(name, end - 1);
    }
}

/// The file name that an archived path comes to: the last part of the path
/// that is neither empty nor `.`. A path that ends in `..`, and one without
/// such a part, has none.
pub fn base_name(name: &str) -> (base: Option<String>)
    ensures
        match base {
            Some(b) => base_name_of(name@) == Some(b@),
            None => base_name_of(name@) is None,
        },
{
    let chars = chars_of(name);
    let mut end: usize = chars.len();
    loop
        invariant
            end <= chars.len(),
            chars@ == name@,
            base_name_within(chars@, end as int) == base_name_of(name@),
        decreases end,
    {
        let mut start: usize = end;
        while start > 0 && chars[start - 1] != '/'
            invariant
                start <= end <= chars.len(),
                last_slash(chars@, end as int) == last_slash(chars@, start as int),
            decreases start,
        {
            start -= 1;
        }
        let ghost slash = last_slash(chars@, end as int);
        assert(slash == start - 1);
        let len = end - start;
        let ghost part = chars@.subrange(start as int, end as int);
        if len == 0 || (len == 1 && chars[start] == '.') {
            proof {
                if len == 1 {
                    assert(part =~= seq!['.']);
                }
            }
            if start == 0 {
                return None;
            }
            end = start - 1;
        } else if len == 2 && chars[start] == '.' && chars[start + 1] == '.' {
            assert(part =~= seq!['.', '.']);
            return None;
        } else {
            proof {
                if part == seq!['.'] {
                    assert(part.len() == 1 && part[0] == '.');
                }
                if part == seq!['.', '.'] {
                    assert(part.len() == 2 && part[0] == '.' && part[1] == '.');
                }
            }
            return Some(text_of(&chars, start, end));
        }
    }
}

/// The text of a path as an archive holds it: the bytes read as UTF-8 where
/// they are valid UTF-8, else as Shift_JIS.
pub open spec fn archived_path(raw: Seq<u8>, decoded: Seq<char>) -> Seq<char> {
    if valid_utf8(raw) {
        decode_utf8(raw)
    } else {
        decoded
    }
}

/// The name of the file that an archived entry is unpacked to, given the
/// path of the entry as the archive holds it: the base name of the path, read
/// as UTF-8 where it is valid UTF-8 and as Shift_JIS where it is not. A
/// path without a base name gives none, and so does a path too long to be
/// decoded.
pub fn archived_file_name(raw: &[u8]) -> (name: Option<String>)
    ensures
        match name {
            Some(n) => decodable_len(raw@.len()) && base_name_of(
                archived_path(raw@, shift_jis_decoded(raw@)),
            ) == Some(n@),
            None => !decodable_len(raw@.len()) || base_name_of(
                archived_path(raw@, shift_jis_decoded(raw@)),
            ) is None,
        },
{
    if !can_decode(raw.len()) {
        return None;
    }
    let path = match utf8_text(bytes_clone(raw)) {
        Some(text) => text,
        None => decode_shift_jis(raw),
    };
    base_name(path.as_str())
}

} // verus!
