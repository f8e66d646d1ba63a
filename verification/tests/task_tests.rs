use beatman::ops::create_task_folder::{
    create_task_folder, task_candidates, Score, TableData, TableDataWithScore,
};
use beatman::table_loader::{ScoreData, TableLoader};
use beatman::utils::SONG_CLASS;

fn table(levels: &[&str]) -> TableLoader {
    TableLoader::new(
        levels
            .iter()
            .enumerate()
            .map(|(i, level)| ScoreData {
                title: format!("t{}", i),
                url: String::new(),
                url_diff: String::new(),
                sha256: format!("h{}", i),
                level: level.to_string(),
            })
            .collect(),
    )
}

fn chart(title: &str, level: u32, score: Option<(u8, u32)>, totalnotes: u32) -> TableDataWithScore {
    TableDataWithScore {
        table_data: TableData { sha256: format!("hash of {}", title), title: title.to_string(), level },
        score: score.map(|(clear, playcount)| Score {
            sha256: format!("hash of {}", title),
            clear,
            playcount,
            minbp: 0,
            scorehash: String::new(),
        }),
        totalnotes,
    }
}

fn titles(songs: &[beatman::utils::DefaultTableSong]) -> Vec<String> {
    songs.iter().map(|s| s.title.clone()).collect()
}

#[test]
fn candidates_are_at_or_above_the_lower_limit() {
    let found = task_candidates(&table(&["1", "5", "12", "4", "+7"]), 5).unwrap();
    let levels: Vec<(String, u32)> = found.iter().map(|c| (c.title.clone(), c.level)).collect();
    assert_eq!(
        levels,
        vec![("t1".to_string(), 5), ("t2".to_string(), 12), ("t4".to_string(), 7)]
    );
    assert_eq!(found[0].sha256, "h1");
}

#[test]
fn a_level_too_large_for_the_limit_is_a_candidate() {
    let found = task_candidates(&table(&["300", "1"]), 200).unwrap();
    assert_eq!(found.len(), 1);
    assert_eq!(found[0].level, 300);
}

#[test]
fn a_candidate_whose_level_is_no_number_is_an_error() {
    assert_eq!(task_candidates(&table(&["5", "?", "x"]), 1).unwrap_err().level, "?");
    assert_eq!(task_candidates(&table(&["x", "y"]), 1).unwrap_err().level, "x");
    assert_eq!(task_candidates(&table(&["-1"]), 1).unwrap_err().level, "-1");
    assert_eq!(task_candidates(&table(&["99999999999"]), 1).unwrap_err().level, "99999999999");
    assert!(task_candidates(&table(&[]), 1).unwrap().is_empty());
}

#[test]
fn task_takes_the_easiest_and_least_played_first() {
    let charts = vec![
        chart("c1", 3, None, 500),
        chart("c2", 1, Some((2, 10)), 400),
        chart("c3", 1, Some((2, 3)), 300),
        chart("c4", 1, Some((6, 1)), 100),
        chart("c5", 1, None, 200),
        chart("c6", 2, Some((5, 1)), 1000),
    ];
    let task = create_task_folder(&charts, "HARD", 1000, "2024.05.01", 1714521123).unwrap();
    assert_eq!(titles(&task.songs), ["c5", "c3", "c2", "c6"]);
    assert_eq!(task.songs[0].sha256, "hash of c5");
    assert_eq!(task.songs[0].class, SONG_CLASS);
    // the first chart left out, c1, is counted too
    assert_eq!(task.notes, 2400);
    assert_eq!(task.name, "2024.05.01 2400 NOTES 123");
}

#[test]
fn task_leaves_out_what_is_cleared() {
    let charts = vec![
        chart("cleared", 1, Some((6, 1)), 100),
        chart("better", 1, Some((9, 1)), 100),
        chart("open", 1, Some((5, 1)), 100),
        chart("new", 1, None, 100),
    ];
    let task = create_task_folder(&charts, "HARD", 10000, "d", 0).unwrap();
    assert_eq!(titles(&task.songs), ["new", "open"]);
    assert_eq!(task.notes, 200);
    assert_eq!(task.name, "d 200 NOTES 0");
    let task = create_task_folder(&charts, "AEASY", 10000, "d", 0).unwrap();
    assert_eq!(titles(&task.songs), ["new"]);
}

#[test]
fn charts_with_equal_keys_keep_their_order() {
    let charts = vec![
        chart("x", 2, None, 1),
        chart("a", 1, Some((1, 1)), 1),
        chart("b", 1, Some((1, 1)), 1),
        chart("y", 2, None, 1),
        chart("c", 1, Some((1, 1)), 1),
    ];
    let task = create_task_folder(&charts, "PERFECT", 100, "d", 7).unwrap();
    assert_eq!(titles(&task.songs), ["a", "b", "c", "x", "y"]);
    assert_eq!(task.notes, 5);
}

#[test]
fn task_stops_when_the_notes_are_reached() {
    let charts = vec![chart("a", 1, None, 600), chart("b", 2, None, 400), chart("c", 3, None, 50)];
    let task = create_task_folder(&charts, "EASY", 1000, "d", 0).unwrap();
    // 600 < 1000: a; 1000 is not below 1000: b is taken, c is left out and counted
    assert_eq!(titles(&task.songs), ["a", "b"]);
    assert_eq!(task.notes, 1050);
    let task = create_task_folder(&charts, "EASY", 600, "d", 0).unwrap();
    assert_eq!(titles(&task.songs), ["a"]);
    assert_eq!(task.notes, 1000);
    let task = create_task_folder(&charts, "EASY", 0, "d", 0).unwrap();
    assert!(task.songs.is_empty());
    assert_eq!(task.notes, 600);
}

#[test]
fn task_without_charts_is_empty() {
    let task = create_task_folder(&vec![], "EASY", 1000, "2024.05.01", 999).unwrap();
    assert!(task.songs.is_empty());
    assert_eq!(task.notes, 0);
    assert_eq!(task.name, "2024.05.01 0 NOTES 999");
}

#[test]
fn large_note_counts_do_not_overflow() {
    let charts = vec![
        chart("a", 1, None, u32::MAX),
        chart("b", 2, None, u32::MAX),
        chart("c", 3, None, u32::MAX),
    ];
    let task = create_task_folder(&charts, "EASY", u32::MAX, "d", 0).unwrap();
    assert_eq!(titles(&task.songs), ["a"]);
    assert_eq!(task.notes, 2 * u32::MAX as u64);
}

#[test]
fn stamp_gives_its_last_three_digits() {
    let name = |stamp| create_task_folder(&vec![], "EASY", 0, "d", stamp).unwrap().name;
    assert_eq!(name(1000), "d 0 NOTES 0");
    assert_eq!(name(1714521007), "d 0 NOTES 7");
    assert_eq!(name(-5), "d 0 NOTES -5");
    assert_eq!(name(-1714521007), "d 0 NOTES -7");
    assert_eq!(name(i64::MIN), format!("d 0 NOTES {}", i64::MIN % 1000));
}

#[test]
fn task_needs_a_lamp_with_a_number() {
    let error = create_task_folder(&vec![], "SOFT", 1000, "d", 0).unwrap_err();
    assert_eq!(error.lamp, "SOFT");
}
