use beatman::fsutil::{
    is_noise_file, move_and_remove_dir, remove_empty_dirs, DirectoryError, FsOp, SubdirInfo,
    TreeEntry,
};
use beatman::path::TreePath;

fn path(parts: &[&str]) -> TreePath {
    TreePath::new(false, parts.iter().map(|p| p.as_bytes().to_vec()).collect())
}

fn show(p: &TreePath) -> String {
    p.parts.iter().map(|c| String::from_utf8(c.clone()).unwrap()).collect::<Vec<_>>().join("/")
}

fn file(rel: &str) -> TreeEntry {
    TreeEntry { rel: rel.split('/').map(|p| p.as_bytes().to_vec()).collect(), is_dir: false }
}

fn dir(rel: &str) -> TreeEntry {
    TreeEntry { rel: rel.split('/').map(|p| p.as_bytes().to_vec()).collect(), is_dir: true }
}

fn shown(ops: &[FsOp]) -> Vec<String> {
    ops.iter()
        .map(|op| match op {
            FsOp::CreateDirAll { dir } => format!("mkdir {}", show(dir)),
            FsOp::MoveFile { from, dest } => format!("mv {} -> {}", show(from), show(dest)),
            FsOp::RemoveDirAll { dir } => format!("rm {}", show(dir)),
        })
        .collect()
}

#[test]
fn desktop_files_are_noise() {
    assert!(is_noise_file(b"desktop.ini"));
    assert!(is_noise_file(b".DS_Store"));
    assert!(!is_noise_file(b"Desktop.ini"));
    assert!(!is_noise_file(b".ds_store"));
    assert!(!is_noise_file(b"desktop.ini.bak"));
    assert!(!is_noise_file(b""));
}

#[test]
fn every_entry_is_moved_and_the_source_removed_last() {
    let walk = Some(vec![
        file("chart.bms"),
        dir("sounds"),
        file("sounds/kick.wav"),
        dir("sounds/more"),
        file("sounds/more/snare.wav"),
        file("bgm.wav"),
    ]);
    let plan = move_and_remove_dir(&path(&["r", "dup"]), &path(&["r", "orig"]), &walk, true);
    assert_eq!(
        shown(&plan.unwrap()),
        [
            "mv r/dup/chart.bms -> r/orig/chart.bms",
            "mkdir r/orig/sounds",
            "mv r/dup/sounds/kick.wav -> r/orig/sounds/kick.wav",
            "mkdir r/orig/sounds/more",
            "mv r/dup/sounds/more/snare.wav -> r/orig/sounds/more/snare.wav",
            "mv r/dup/bgm.wav -> r/orig/bgm.wav",
            "rm r/dup",
        ]
    );
}

#[test]
fn a_missing_destination_is_created_first() {
    let walk = Some(vec![file("chart.bms")]);
    let plan = move_and_remove_dir(&path(&["a"]), &path(&["b", "c"]), &walk, false);
    assert_eq!(shown(&plan.unwrap()), ["mkdir b/c", "mv a/chart.bms -> b/c/chart.bms", "rm a"]);
}

#[test]
fn noise_files_are_left_behind_and_go_with_the_source() {
    let walk = Some(vec![
        file("desktop.ini"),
        file("chart.bms"),
        file(".DS_Store"),
        dir("sub"),
        file("sub/desktop.ini"),
        file("sub/x.wav"),
    ]);
    let plan = move_and_remove_dir(&path(&["a"]), &path(&["b"]), &walk, true);
    assert_eq!(
        shown(&plan.unwrap()),
        ["mv a/chart.bms -> b/chart.bms", "mkdir b/sub", "mv a/sub/x.wav -> b/sub/x.wav", "rm a"]
    );
    let walk = Some(vec![dir("desktop.ini"), file("desktop.ini/x")]);
    let plan = move_and_remove_dir(&path(&["a"]), &path(&["b"]), &walk, true);
    assert_eq!(
        shown(&plan.unwrap()),
        ["mkdir b/desktop.ini", "mv a/desktop.ini/x -> b/desktop.ini/x", "rm a"]
    );
}

#[test]
fn an_empty_source_is_only_removed() {
    let plan = move_and_remove_dir(&path(&["a"]), &path(&["b"]), &Some(vec![]), true);
    assert_eq!(shown(&plan.unwrap()), ["rm a"]);
}

#[test]
fn an_entry_without_a_path_is_passed_over() {
    let walk = Some(vec![TreeEntry { rel: vec![], is_dir: false }, file("x")]);
    let plan = move_and_remove_dir(&path(&["a"]), &path(&["b"]), &walk, true);
    assert_eq!(shown(&plan.unwrap()), ["mv a/x -> b/x", "rm a"]);
}

#[test]
fn a_missing_source_gives_an_error() {
    let plan = move_and_remove_dir(&path(&["a"]), &path(&["b"]), &None, false);
    assert_eq!(plan.unwrap_err(), DirectoryError::MissingSource);
    let plan = move_and_remove_dir(&path(&["a"]), &path(&["a"]), &None, true);
    assert_eq!(plan.unwrap_err(), DirectoryError::MissingSource);
}

#[test]
fn a_destination_in_the_source_gives_an_error() {
    let walk = Some(vec![file("chart.bms")]);
    let plan = move_and_remove_dir(&path(&["a"]), &path(&["a"]), &walk, true);
    assert_eq!(plan.unwrap_err(), DirectoryError::InvalidDestination);
    let plan = move_and_remove_dir(&path(&["a"]), &path(&["a", "b", "c"]), &walk, false);
    assert_eq!(plan.unwrap_err(), DirectoryError::InvalidDestination);
    let plan = move_and_remove_dir(&path(&[]), &path(&["a"]), &walk, false);
    assert_eq!(plan.unwrap_err(), DirectoryError::InvalidDestination);
}

#[test]
fn a_source_in_the_destination_is_moved_up() {
    let walk = Some(vec![file("chart.bms")]);
    let plan = move_and_remove_dir(&path(&["a", "b"]), &path(&["a"]), &walk, true);
    assert_eq!(shown(&plan.unwrap()), ["mv a/b/chart.bms -> a/chart.bms", "rm a/b"]);
}

#[test]
fn nothing_is_moved_to_a_place_inside_the_source() {
    // a/b/b/x would go to a/b/x, which the removal of a/b would take along
    let walk = Some(vec![file("chart.bms"), dir("b"), file("b/x")]);
    let plan = move_and_remove_dir(&path(&["a", "b"]), &path(&["a"]), &walk, true);
    assert_eq!(plan.unwrap_err(), DirectoryError::InvalidDestination);
}

#[test]
fn empty_directories_are_listed_for_removal() {
    let entries = vec![
        SubdirInfo { name: b"full".to_vec(), is_dir: true, is_empty: false },
        SubdirInfo { name: b"empty".to_vec(), is_dir: true, is_empty: true },
        SubdirInfo { name: b"file".to_vec(), is_dir: false, is_empty: true },
        SubdirInfo { name: b"empty2".to_vec(), is_dir: true, is_empty: true },
    ];
    let doomed: Vec<String> =
        remove_empty_dirs(&path(&["root"]), &entries).iter().map(show).collect();
    assert_eq!(doomed, ["root/empty", "root/empty2"]);
    assert!(remove_empty_dirs(&path(&["root"]), &vec![]).is_empty());
}
