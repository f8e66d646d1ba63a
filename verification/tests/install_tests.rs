use beatman::fsutil::EntryInfo;
use beatman::ops::install_from_dir::{
    archive_kind, archived_file_name, base_name, install_from_dir, install_from_dirs, ArchiveAction,
    ArchiveKind,
};
use beatman::path::TreePath;
use std::path::Path;

fn path(parts: &[&str]) -> TreePath {
    TreePath::new(false, parts.iter().map(|p| p.as_bytes().to_vec()).collect())
}

fn show(p: &TreePath) -> String {
    p.parts.iter().map(|c| String::from_utf8(c.clone()).unwrap()).collect::<Vec<_>>().join("/")
}

#[test]
fn archives_are_told_by_extension() {
    assert_eq!(archive_kind(b"pack.zip"), Some(ArchiveKind::Zip));
    assert_eq!(archive_kind(b"pack.rar"), Some(ArchiveKind::Rar));
    assert_eq!(archive_kind(b"pack.v2.zip"), Some(ArchiveKind::Zip));
    assert_eq!(archive_kind(b"pack.ZIP"), None);
    assert_eq!(archive_kind(b"pack.Rar"), None);
    assert_eq!(archive_kind(b"pack.zip.part"), None);
    assert_eq!(archive_kind(b"pack.7z"), None);
    assert_eq!(archive_kind(b".zip"), None);
    assert_eq!(archive_kind(b"zip"), None);
    assert_eq!(archive_kind(b""), None);
}

#[test]
fn installation_unpacks_every_archive_into_a_stamped_directory() {
    let names: Vec<Vec<u8>> =
        ["a.zip", "notes.txt", "b.rar", "c", "d.zip"].iter().map(|n| n.as_bytes().to_vec()).collect();
    let plan = install_from_dir(&path(&["dl"]), &names, &path(&["lib"]), "1714521123000042", false);
    assert_eq!(show(&plan.dest_dir), "lib/1714521123000042");
    let steps: Vec<(String, ArchiveKind, ArchiveAction)> =
        plan.archives.iter().map(|s| (show(&s.file), s.kind, s.action)).collect();
    assert_eq!(
        steps,
        vec![
            ("dl/a.zip".to_string(), ArchiveKind::Zip, ArchiveAction::Extract),
            ("dl/b.rar".to_string(), ArchiveKind::Rar, ArchiveAction::Extract),
            ("dl/d.zip".to_string(), ArchiveKind::Zip, ArchiveAction::Extract),
        ]
    );
}

#[test]
fn dry_installation_lists_the_same_archives() {
    let names: Vec<Vec<u8>> = ["a.zip", "b.rar"].iter().map(|n| n.as_bytes().to_vec()).collect();
    let real = install_from_dir(&path(&["dl"]), &names, &path(&["lib"]), "1", false);
    let dry = install_from_dir(&path(&["dl"]), &names, &path(&["lib"]), "1", true);
    assert_eq!(dry.archives.len(), real.archives.len());
    for (d, r) in dry.archives.iter().zip(real.archives.iter()) {
        assert!(d.file.same_as(&r.file));
        assert_eq!(d.kind, r.kind);
        assert_eq!(d.action, ArchiveAction::DryRun);
        assert_eq!(r.action, ArchiveAction::Extract);
    }
    assert!(dry.dest_dir.same_as(&real.dest_dir));
    let none = install_from_dir(&path(&["dl"]), &vec![], &path(&["lib"]), "1", false);
    assert!(none.archives.is_empty());
}

#[test]
fn only_directories_are_installed_from() {
    let entries = vec![
        EntryInfo { name: b"one".to_vec(), is_dir: true },
        EntryInfo { name: b"file.zip".to_vec(), is_dir: false },
        EntryInfo { name: b"two".to_vec(), is_dir: true },
    ];
    let dirs: Vec<String> = install_from_dirs(&path(&["dl"]), &entries).iter().map(show).collect();
    assert_eq!(dirs, ["dl/one", "dl/two"]);
    assert!(install_from_dirs(&path(&["dl"]), &vec![]).is_empty());
}

#[test]
fn base_name_is_the_last_part_of_a_path() {
    assert_eq!(base_name("a/b/c.wav"), Some("c.wav".to_string()));
    assert_eq!(base_name("c.wav"), Some("c.wav".to_string()));
    assert_eq!(base_name("a/b/"), Some("b".to_string()));
    assert_eq!(base_name("a//b"), Some("b".to_string()));
    assert_eq!(base_name("a/."), Some("a".to_string()));
    assert_eq!(base_name("./x"), Some("x".to_string()));
    assert_eq!(base_name("/x"), Some("x".to_string()));
    assert_eq!(base_name("dir/曲.bms"), Some("曲.bms".to_string()));
}

#[test]
fn some_paths_have_no_base_name() {
    assert_eq!(base_name(""), None);
    assert_eq!(base_name("."), None);
    assert_eq!(base_name(".."), None);
    assert_eq!(base_name("a/.."), None);
    assert_eq!(base_name("/"), None);
    assert_eq!(base_name("//"), None);
    assert_eq!(base_name("./"), None);
    assert_eq!(base_name("a/../."), None);
}

#[test]
fn base_name_agrees_with_the_standard_library() {
    let samples = [
        "", ".", "..", "/", "a", "a/", "a/b", "a/b/", "a/./b", "a/b/.", "a/b/..", "./a", "../a", "a//b//",
        "/a/b.c", "...", "a/...", ".a", "a/.b", "a/b/./.", "/.", "/..", "x/../y", " ", "a/ ",
    ];
    for sample in samples {
        let expected =
            Path::new(sample).file_name().map(|n| n.to_str().unwrap().to_string());
        assert_eq!(base_name(sample), expected, "{:?}", sample);
    }
}

#[test]
fn archived_names_are_read_as_utf8_or_shift_jis() {
    assert_eq!(archived_file_name("dir/曲.bms".as_bytes()), Some("曲.bms".to_string()));
    assert_eq!(archived_file_name(b"plain.bms"), Some("plain.bms".to_string()));
    // "dir/曲名.bms" in Shift_JIS
    let mut raw = b"dir/".to_vec();
    raw.extend_from_slice(&[0x8b, 0xc8, 0x96, 0xbc]);
    raw.extend_from_slice(b".bms");
    assert_eq!(archived_file_name(&raw), Some("曲名.bms".to_string()));
    assert_eq!(archived_file_name(b"dir/"), Some("dir".to_string()));
    assert_eq!(archived_file_name(b""), None);
    assert_eq!(archived_file_name(b"a/.."), None);
}
