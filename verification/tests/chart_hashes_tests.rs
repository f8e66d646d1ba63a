use beatman::chart_hashes::{
    excluded, file_extension, filter_bms_files, filter_subdir, hash_chart, indexed, ChartHashes,
    ScannedChart, BMS_EXTENSIONS,
};
use beatman::path::TreePath;

fn path(parts: &[&str]) -> TreePath {
    TreePath::new(false, parts.iter().map(|p| p.as_bytes().to_vec()).collect())
}

fn scanned(parts: &[&str], hash: Option<&str>) -> ScannedChart {
    ScannedChart { path: path(parts), hash: hash.map(|h| h.to_string()) }
}

fn shown(dirs: &[TreePath]) -> Vec<String> {
    dirs.iter()
        .map(|d| {
            d.parts.iter().map(|p| String::from_utf8(p.clone()).unwrap()).collect::<Vec<_>>().join("/")
        })
        .collect()
}

#[test]
fn chart_extensions_are_the_four() {
    assert_eq!(BMS_EXTENSIONS, ["bms", "bml", "bme", "pms"]);
}

#[test]
fn chart_files_are_told_by_extension() {
    assert!(filter_bms_files(&path(&["a", "chart.bms"])));
    assert!(filter_bms_files(&path(&["a", "chart.bml"])));
    assert!(filter_bms_files(&path(&["a", "chart.bme"])));
    assert!(filter_bms_files(&path(&["chart.pms"])));
    assert!(!filter_bms_files(&path(&["a", "chart.txt"])));
    assert!(!filter_bms_files(&path(&["a", "chart"])));
    assert!(!filter_bms_files(&path(&["a", "chart.bmsx"])));
    assert!(!filter_bms_files(&path(&["a", "chart.bm"])));
    assert!(!filter_bms_files(&path(&[])));
}

#[test]
fn chart_extension_ignores_letter_case() {
    assert!(filter_bms_files(&path(&["a", "CHART.BMS"])));
    assert!(filter_bms_files(&path(&["a", "chart.Bme"])));
    assert!(filter_bms_files(&path(&["a", "chart.pMs"])));
}

#[test]
fn only_the_last_extension_counts() {
    assert!(filter_bms_files(&path(&["a", "chart.old.bms"])));
    assert!(!filter_bms_files(&path(&["a", "chart.bms.bak"])));
}

#[test]
fn a_leading_dot_starts_no_extension() {
    assert!(!filter_bms_files(&path(&["a", ".bms"])));
    assert!(filter_bms_files(&path(&["a", ".hidden.bms"])));
    assert!(!filter_bms_files(&path(&["a", ".."])));
}

#[test]
fn extension_is_what_follows_the_last_dot() {
    assert_eq!(file_extension(b"a.tar.gz"), Some(b"gz".to_vec()));
    assert_eq!(file_extension(b"a."), Some(b"".to_vec()));
    assert_eq!(file_extension(b".profile"), None);
    assert_eq!(file_extension(b"plain"), None);
    assert_eq!(file_extension(b""), None);
}

#[test]
fn recycle_bin_and_dot_are_excluded() {
    assert!(excluded(&path(&["$RECYCLE.BIN", "x", "a.bms"])));
    assert!(excluded(&path(&[".", "x", "a.bms"])));
    assert!(!excluded(&path(&["x", "$RECYCLE.BIN", "a.bms"])));
    assert!(!excluded(&path(&[".hidden", "a.bms"])));
    assert!(!excluded(&path(&[])));
    let absolute = TreePath::new(true, vec![b"$RECYCLE.BIN".to_vec(), b"a.bms".to_vec()]);
    assert!(!excluded(&absolute));
    assert!(!indexed(&path(&[".", "a.bms"])));
    assert!(indexed(&path(&["songs", "a.bms"])));
    assert!(!indexed(&path(&["songs", "a.txt"])));
}

#[test]
fn hash_is_sha256_in_lower_hex() {
    assert_eq!(
        hash_chart(b"abc"),
        "ba7816bf8f01cfea414140de5dae2223b00361a396177a9cb410ff61f20015ad"
    );
    assert_eq!(
        hash_chart(b""),
        "e3b0c44298fc1c149afbf4c8996fb92427ae41e4649b934ca495991b7852b855"
    );
    assert_ne!(hash_chart(b"abc"), hash_chart(b"abd"));
}

#[test]
fn index_groups_files_by_hash_in_order_of_discovery() {
    let index = ChartHashes::new(&vec![
        scanned(&["r", "A", "1.bms"], Some("h1")),
        scanned(&["r", "B", "2.bms"], Some("h2")),
        scanned(&["r", "C", "1.bms"], Some("h1")),
        scanned(&["r", "D", "3.bms"], Some("h3")),
        scanned(&["r", "E", "2.bms"], Some("h2")),
    ]);
    let groups = index.hashes();
    assert_eq!(groups.len(), 3);
    assert_eq!(groups[0].hash, "h1");
    assert_eq!(shown(&groups[0].paths), ["r/A/1.bms", "r/C/1.bms"]);
    assert_eq!(groups[1].hash, "h2");
    assert_eq!(shown(&groups[1].paths), ["r/B/2.bms", "r/E/2.bms"]);
    assert_eq!(groups[2].hash, "h3");
    assert_eq!(shown(&groups[2].paths), ["r/D/3.bms"]);
    assert_eq!(index.dropped(), 0);
}

#[test]
fn index_leaves_out_what_is_no_chart_and_counts_what_was_not_hashed() {
    let index = ChartHashes::new(&vec![
        scanned(&["r", "A", "1.bms"], Some("h1")),
        scanned(&["r", "A", "readme.txt"], Some("h9")),
        scanned(&["r", "B", "2.bms"], None),
        scanned(&["r", "B", "cover.png"], None),
        scanned(&[".", "B", "3.bms"], Some("h3")),
        scanned(&["r", "C", "4.pms"], None),
    ]);
    assert_eq!(index.hashes().len(), 1);
    assert_eq!(shown(&index.hashes()[0].paths), ["r/A/1.bms"]);
    assert_eq!(index.dropped(), 2);
}

#[test]
fn empty_scan_gives_empty_index() {
    let index = ChartHashes::new(&vec![]);
    assert!(index.hashes().is_empty());
    assert!(index.parents().is_empty());
    assert_eq!(index.dropped(), 0);
}

#[test]
fn parents_are_the_folders_of_the_first_files() {
    let index = ChartHashes::new(&vec![
        scanned(&["r", "A", "1.bms"], Some("h1")),
        scanned(&["r", "B", "1.bms"], Some("h1")),
        scanned(&["r", "A", "2.bms"], Some("h2")),
        scanned(&["r", "C", "3.bms"], Some("h3")),
    ]);
    assert_eq!(shown(&index.parents()), ["r/A", "r/C"]);
}

#[test]
fn parents_never_hold_a_folder_and_one_above_it() {
    let index = ChartHashes::new(&vec![
        scanned(&["r", "A", "sub", "1.bms"], Some("h1")),
        scanned(&["r", "A", "2.bms"], Some("h2")),
        scanned(&["r", "B", "x", "y", "3.bms"], Some("h3")),
        scanned(&["r", "B", "x", "4.bms"], Some("h4")),
        scanned(&["r", "Bx", "5.bms"], Some("h5")),
    ]);
    let parents = index.parents();
    assert_eq!(shown(&parents), ["r/A", "r/B/x", "r/Bx"]);
    for a in &parents {
        for b in &parents {
            assert!(!a.is_ancestor_of(b));
        }
    }
}

#[test]
fn filter_subdir_drops_nested_directories() {
    let dirs = vec![path(&["a", "b"]), path(&["a"]), path(&["c", "d"]), path(&["a", "b", "e"])];
    assert_eq!(shown(&filter_subdir(&dirs)), ["a", "c/d"]);
    assert!(filter_subdir(&vec![]).is_empty());
    let same = vec![path(&["a"]), path(&["a"])];
    assert_eq!(filter_subdir(&same).len(), 2);
}

#[test]
fn filter_subdir_drops_everything_under_the_empty_path() {
    let dirs = vec![path(&["a"]), path(&[]), path(&["b", "c"])];
    assert_eq!(shown(&filter_subdir(&dirs)), [""]);
}
