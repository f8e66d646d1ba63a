use beatman::chart_hashes::{ChartHashes, ScannedChart};
use beatman::ops::merge::{
    is_duplicated, merge, resolve, FolderListing, MergeAction, MergeError, MergePair, MergeStep,
    MAX_HOPS, MERGE_THRESHOLD,
};
use beatman::path::TreePath;

fn path(parts: &[&str]) -> TreePath {
    TreePath::new(false, parts.iter().map(|p| p.as_bytes().to_vec()).collect())
}

fn scanned(parts: &[&str], hash: &str) -> ScannedChart {
    ScannedChart { path: path(parts), hash: Some(hash.to_string()) }
}

fn listing(folder: &[&str], files: &[&str]) -> FolderListing {
    FolderListing {
        folder: path(folder),
        files: Some(files.iter().map(|f| f.as_bytes().to_vec()).collect()),
    }
}

fn unreadable(folder: &[&str]) -> FolderListing {
    FolderListing { folder: path(folder), files: None }
}

fn show(p: &TreePath) -> String {
    p.parts.iter().map(|c| String::from_utf8(c.clone()).unwrap()).collect::<Vec<_>>().join("/")
}

fn pairs(found: &[MergePair]) -> Vec<(String, String)> {
    found.iter().map(|p| (show(&p.from), show(&p.dest))).collect()
}

fn steps(found: &[MergeStep]) -> Vec<(String, String, MergeAction)> {
    found.iter().map(|s| (show(&s.from), show(&s.dest), s.action)).collect()
}

fn own(list: &[(&str, &str)]) -> Vec<(String, String)> {
    list.iter().map(|(a, b)| (a.to_string(), b.to_string())).collect()
}

#[test]
fn default_threshold_is_eighty_percent() {
    assert_eq!(MERGE_THRESHOLD, 80);
    assert_eq!(MAX_HOPS, 10);
}

#[test]
fn identical_folders_are_duplicates() {
    let a = listing(&["A"], &["1.bms", "bgm.wav"]);
    let b = listing(&["B"], &["bgm.wav", "1.bms"]);
    assert_eq!(is_duplicated(&a, &b, None), Ok(true));
    assert_eq!(is_duplicated(&a, &b, Some(100)), Ok(true));
}

#[test]
fn confidence_counts_agreeing_names_on_both_sides() {
    // 5 + 4 names, one of them on one side only: 100 * 8 / 9 = 88
    let a = listing(&["A"], &["a.bms", "b.wav", "c.wav", "d.wav", "e.wav"]);
    let b = listing(&["B"], &["a.bms", "b.wav", "c.wav", "d.wav"]);
    assert_eq!(is_duplicated(&a, &b, None), Ok(true));
    assert_eq!(is_duplicated(&b, &a, None), Ok(true));
    assert_eq!(is_duplicated(&a, &b, Some(88)), Ok(true));
    assert_eq!(is_duplicated(&a, &b, Some(89)), Ok(false));
}

#[test]
fn confidence_of_exactly_the_threshold_is_enough() {
    // 5 + 5 names, 4 shared: 100 * 8 / 10 = 80
    let a = listing(&["A"], &["1", "2", "3", "4", "5"]);
    let b = listing(&["B"], &["1", "2", "3", "4", "6"]);
    assert_eq!(is_duplicated(&a, &b, None), Ok(true));
    assert_eq!(is_duplicated(&a, &b, Some(81)), Ok(false));
}

#[test]
fn folders_that_share_little_are_no_duplicates() {
    // 3 + 3 names, 1 shared: 100 * 2 / 6 = 33
    let a = listing(&["A"], &["a.bms", "b.wav", "c.wav"]);
    let b = listing(&["B"], &["a.bms", "x.wav", "y.wav"]);
    assert_eq!(is_duplicated(&a, &b, None), Ok(false));
    assert_eq!(is_duplicated(&a, &b, Some(33)), Ok(true));
    assert_eq!(is_duplicated(&a, &b, Some(34)), Ok(false));
    assert_eq!(is_duplicated(&a, &b, Some(0)), Ok(true));
}

#[test]
fn a_name_listed_twice_counts_once() {
    let a = listing(&["A"], &["a.bms", "a.bms", "b.wav"]);
    let b = listing(&["B"], &["a.bms", "b.wav"]);
    assert_eq!(is_duplicated(&a, &b, Some(100)), Ok(true));
}

#[test]
fn an_empty_folder_is_no_duplicate_of_a_full_one() {
    let a = listing(&["A"], &[]);
    let b = listing(&["B"], &["a.bms"]);
    assert_eq!(is_duplicated(&a, &b, None), Ok(false));
    assert_eq!(is_duplicated(&a, &b, Some(0)), Ok(true));
}

#[test]
fn unlisted_folders_cannot_be_compared() {
    let a = listing(&["A"], &["a.bms"]);
    let b = unreadable(&["B"]);
    assert_eq!(is_duplicated(&a, &b, None), Err(MergeError::NotADirectory));
    assert_eq!(is_duplicated(&b, &a, None), Err(MergeError::NotADirectory));
    assert_eq!(is_duplicated(&b, &b, None), Err(MergeError::NotADirectory));
}

#[test]
fn two_folders_without_files_cannot_be_compared() {
    let a = listing(&["A"], &[]);
    let b = listing(&["B"], &[]);
    assert_eq!(is_duplicated(&a, &b, None), Err(MergeError::NoFiles));
}

#[test]
fn later_folder_is_merged_into_earlier() {
    let index = ChartHashes::new(&vec![
        scanned(&["root", "SongA [7]", "chart.bms"], "h1"),
        scanned(&["root", "SongA_dup", "chart.bms"], "h1"),
    ]);
    let listings = vec![
        listing(&["root", "SongA [7]"], &["chart.bms", "bgm.wav"]),
        listing(&["root", "SongA_dup"], &["chart.bms", "bgm.wav"]),
    ];
    let found = resolve(&index, &listings, None);
    assert_eq!(pairs(&found), own(&[("root/SongA_dup", "root/SongA [7]")]));
}

#[test]
fn folders_that_differ_too_much_are_left_apart() {
    let index = ChartHashes::new(&vec![
        scanned(&["root", "A", "chart.bms"], "h1"),
        scanned(&["root", "B", "chart.bms"], "h1"),
    ]);
    let listings = vec![
        listing(&["root", "A"], &["chart.bms", "a.wav", "b.wav"]),
        listing(&["root", "B"], &["chart.bms", "x.wav", "y.wav"]),
    ];
    assert!(resolve(&index, &listings, None).is_empty());
    assert_eq!(
        pairs(&resolve(&index, &listings, Some(30))),
        own(&[("root/B", "root/A")])
    );
}

#[test]
fn unique_charts_call_for_no_merge() {
    let index = ChartHashes::new(&vec![
        scanned(&["root", "A", "1.bms"], "h1"),
        scanned(&["root", "B", "2.bms"], "h2"),
    ]);
    let listings =
        vec![listing(&["root", "A"], &["1.bms"]), listing(&["root", "B"], &["2.bms"])];
    assert!(resolve(&index, &listings, None).is_empty());
    assert!(merge(&index, &listings, None, false).is_empty());
}

#[test]
fn chains_of_merges_are_followed_to_their_end() {
    let names = ["1.bms", "2.bms", "bgm.wav"];
    let index = ChartHashes::new(&vec![
        scanned(&["r", "A", "1.bms"], "h1"),
        scanned(&["r", "B", "1.bms"], "h1"),
        scanned(&["r", "B", "2.bms"], "h2"),
        scanned(&["r", "C", "2.bms"], "h2"),
    ]);
    let listings = vec![
        listing(&["r", "A"], &names),
        listing(&["r", "B"], &names),
        listing(&["r", "C"], &names),
    ];
    let found = resolve(&index, &listings, None);
    assert_eq!(pairs(&found), own(&[("r/B", "r/A"), ("r/C", "r/A")]));
}

#[test]
fn a_group_is_walked_along_its_neighbours() {
    let names = ["1.bms"];
    let index = ChartHashes::new(&vec![
        scanned(&["r", "A", "1.bms"], "h1"),
        scanned(&["r", "B", "1.bms"], "h1"),
        scanned(&["r", "C", "1.bms"], "h1"),
    ]);
    let listings = vec![
        listing(&["r", "A"], &names),
        listing(&["r", "B"], &names),
        listing(&["r", "C"], &names),
    ];
    // B points at A, C points at B and ends at A
    assert_eq!(pairs(&resolve(&index, &listings, None)), own(&[("r/B", "r/A"), ("r/C", "r/A")]));
}

#[test]
fn a_later_edge_overwrites_an_earlier_one_from_the_same_folder() {
    let names = ["1.bms", "2.bms"];
    let index = ChartHashes::new(&vec![
        scanned(&["r", "A", "1.bms"], "h1"),
        scanned(&["r", "C", "1.bms"], "h1"),
        scanned(&["r", "B", "2.bms"], "h2"),
        scanned(&["r", "C", "2.bms"], "h2"),
    ]);
    let listings = vec![
        listing(&["r", "A"], &names),
        listing(&["r", "B"], &names),
        listing(&["r", "C"], &names),
    ];
    assert_eq!(pairs(&resolve(&index, &listings, None)), own(&[("r/C", "r/B")]));
}

#[test]
fn two_copies_in_one_folder_give_a_merge_of_the_folder_into_itself() {
    let index = ChartHashes::new(&vec![
        scanned(&["r", "A", "1.bms"], "h1"),
        scanned(&["r", "A", "1 copy.bms"], "h1"),
    ]);
    let listings = vec![listing(&["r", "A"], &["1.bms", "1 copy.bms"])];
    assert_eq!(pairs(&resolve(&index, &listings, None)), own(&[("r/A", "r/A")]));
    let real = merge(&index, &listings, None, false);
    assert_eq!(
        steps(&real),
        vec![("r/A".to_string(), "r/A".to_string(), MergeAction::SameFolder)]
    );
    let dry = merge(&index, &listings, None, true);
    assert_eq!(steps(&dry), steps(&real));
}

#[test]
fn a_cycle_is_left_after_ten_hops() {
    let names = ["1.bms", "2.bms"];
    let index = ChartHashes::new(&vec![
        scanned(&["r", "A", "1.bms"], "h1"),
        scanned(&["r", "B", "1.bms"], "h1"),
        scanned(&["r", "B", "2.bms"], "h2"),
        scanned(&["r", "A", "2.bms"], "h2"),
    ]);
    let listings = vec![listing(&["r", "A"], &names), listing(&["r", "B"], &names)];
    assert_eq!(pairs(&resolve(&index, &listings, None)), own(&[("r/B", "r/A"), ("r/A", "r/B")]));
}

#[test]
fn a_chain_is_followed_for_ten_hops_and_no_further() {
    let mut files = Vec::new();
    let mut listings = Vec::new();
    for i in 0..13 {
        listings.push(listing(&["r", &format!("F{}", i)], &["x.bms"]));
    }
    for i in 0..12 {
        let chart = format!("{}.bms", i);
        let hash = format!("h{}", i);
        files.push(scanned(&["r", &format!("F{}", i), &chart], &hash));
        files.push(scanned(&["r", &format!("F{}", i + 1), &chart], &hash));
    }
    let index = ChartHashes::new(&files);
    let found = pairs(&resolve(&index, &listings, None));
    assert_eq!(found.len(), 12);
    assert_eq!(found[0], ("r/F1".to_string(), "r/F0".to_string()));
    assert_eq!(found[9], ("r/F10".to_string(), "r/F0".to_string()));
    assert_eq!(found[10], ("r/F11".to_string(), "r/F0".to_string()));
    // from F11, the destination of F12, ten hops lead to F1
    assert_eq!(found[11], ("r/F12".to_string(), "r/F1".to_string()));
}

#[test]
fn folders_that_cannot_be_listed_are_not_merged() {
    let index = ChartHashes::new(&vec![
        scanned(&["r", "A", "1.bms"], "h1"),
        scanned(&["r", "B", "1.bms"], "h1"),
        scanned(&["r", "C", "1.bms"], "h1"),
    ]);
    let listings = vec![listing(&["r", "A"], &["1.bms"]), unreadable(&["r", "B"])];
    assert!(resolve(&index, &listings, None).is_empty());
}

#[test]
fn the_first_listing_of_a_folder_counts() {
    let index = ChartHashes::new(&vec![
        scanned(&["r", "A", "1.bms"], "h1"),
        scanned(&["r", "B", "1.bms"], "h1"),
    ]);
    let listings = vec![
        listing(&["r", "A"], &["1.bms"]),
        listing(&["r", "B"], &["1.bms"]),
        listing(&["r", "B"], &["other", "names", "here"]),
    ];
    assert_eq!(pairs(&resolve(&index, &listings, None)), own(&[("r/B", "r/A")]));
}

#[test]
fn dry_run_decides_as_a_real_run_does() {
    let names = ["1.bms", "2.bms", "bgm.wav"];
    let index = ChartHashes::new(&vec![
        scanned(&["r", "A", "1.bms"], "h1"),
        scanned(&["r", "B", "1.bms"], "h1"),
        scanned(&["r", "C", "2.bms"], "h2"),
        scanned(&["r", "C", "2 copy.bms"], "h2"),
    ]);
    let listings = vec![
        listing(&["r", "A"], &names),
        listing(&["r", "B"], &names),
        listing(&["r", "C"], &names),
    ];
    let real = steps(&merge(&index, &listings, None, false));
    let dry = steps(&merge(&index, &listings, None, true));
    assert_eq!(real.len(), 2);
    assert_eq!(real[0], ("r/B".to_string(), "r/A".to_string(), MergeAction::Move));
    assert_eq!(real[1], ("r/C".to_string(), "r/C".to_string(), MergeAction::SameFolder));
    assert_eq!(dry[0], ("r/B".to_string(), "r/A".to_string(), MergeAction::DryRun));
    assert_eq!(dry[1], real[1]);
    assert!(dry.iter().all(|s| s.2 != MergeAction::Move));
}

#[test]
fn copies_in_one_folder_call_off_its_merge_into_another() {
    let names = ["1.bms", "2.bms", "2 copy.bms"];
    let index = ChartHashes::new(&vec![
        scanned(&["r", "A", "1.bms"], "h1"),
        scanned(&["r", "B", "1.bms"], "h1"),
        scanned(&["r", "B", "2.bms"], "h2"),
        scanned(&["r", "B", "2 copy.bms"], "h2"),
    ]);
    let listings = vec![listing(&["r", "A"], &names), listing(&["r", "B"], &names)];
    assert_eq!(pairs(&resolve(&index, &listings, None)), own(&[("r/B", "r/B")]));
}
