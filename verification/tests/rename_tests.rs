use beatman::ops::rename::{
    compose_name, lookup_name, lookup_names, names_with_fallback, read_artist_and_title,
    read_files_and_name, remove_difficulty, rename_action, rename_dirs, rename_target, sanitize_str,
    stem_or_name, FolderCharts, NameError, RenameAction, ARTIST_KEY, MAX_ARTIST, MAX_TITLE, TITLE_KEY,
};
use beatman::path::TreePath;

fn path(parts: &[&str]) -> TreePath {
    TreePath::new(false, parts.iter().map(|p| p.as_bytes().to_vec()).collect())
}

fn show(p: &TreePath) -> String {
    p.parts.iter().map(|c| String::from_utf8(c.clone()).unwrap()).collect::<Vec<_>>().join("/")
}

fn lines(text: &[&str]) -> Vec<String> {
    text.iter().map(|l| l.to_string()).collect()
}

fn texts(list: &[&str]) -> Vec<String> {
    list.iter().map(|l| l.to_string()).collect()
}

fn names(artist: &str, title: &str) -> Result<(String, String), NameError> {
    Ok((artist.to_string(), title.to_string()))
}

/// `#ARTIST 作者` and `#TITLE 曲名` in Shift_JIS, each line ended by CR LF.
fn shift_jis_chart() -> Vec<u8> {
    let mut bytes = b"#PLAYER 1\r\n#ARTIST ".to_vec();
    bytes.extend_from_slice(&[0x8d, 0xec, 0x8e, 0xd2]);
    bytes.extend_from_slice(b"\r\n#TITLE ");
    bytes.extend_from_slice(&[0x8b, 0xc8, 0x96, 0xbc]);
    bytes.extend_from_slice(b"\r\n#BPM 150\r\n");
    bytes
}

#[test]
fn header_keys_end_in_a_blank() {
    assert_eq!(ARTIST_KEY, "#ARTIST ");
    assert_eq!(TITLE_KEY, "#TITLE ");
    assert_eq!(MAX_ARTIST, 50);
    assert_eq!(MAX_TITLE, 100);
}

#[test]
fn artist_and_title_are_read_from_header_lines() {
    let found = read_artist_and_title(&lines(&[
        "#PLAYER 1",
        "#ARTIST someone",
        "#TITLE Song [ANOTHER]",
        "#BPM 120",
    ]));
    assert_eq!(found, (Some("someone".to_string()), Some("Song [ANOTHER]".to_string())));
}

#[test]
fn the_first_line_of_each_key_counts() {
    let found = read_artist_and_title(&lines(&[
        "#ARTIST first",
        "#ARTIST second",
        "#TITLE one",
        "#TITLE two",
    ]));
    assert_eq!(found, (Some("first".to_string()), Some("one".to_string())));
}

#[test]
fn header_keys_are_matched_exactly() {
    let found = read_artist_and_title(&lines(&[
        "#artist lower",
        "#ARTIST",
        "#ARTISTx glued",
        " #ARTIST indented",
        "#SUBTITLE sub",
        "#TITLE",
    ]));
    assert_eq!(found, (None, None));
}

#[test]
fn an_empty_value_is_read_as_empty() {
    let found = read_artist_and_title(&lines(&["#ARTIST ", "#TITLE  x"]));
    assert_eq!(found, (Some("".to_string()), Some(" x".to_string())));
}

#[test]
fn missing_keys_read_as_none() {
    assert_eq!(read_artist_and_title(&lines(&[])), (None, None));
    assert_eq!(
        read_artist_and_title(&lines(&["#TITLE only"])),
        (None, Some("only".to_string()))
    );
}

#[test]
fn names_are_looked_up_in_utf8_text() {
    let chart = "#PLAYER 1\r\n#ARTIST Foo\r\n#TITLE Bar [HYPER]\r\n#BPM 120\r\n";
    assert_eq!(lookup_name(chart.as_bytes()), names("Foo", "Bar [HYPER]"));
    let unix = "#ARTIST アーティスト\n#TITLE 曲\n";
    assert_eq!(lookup_name(unix.as_bytes()), names("アーティスト", "曲"));
    let no_final_newline = "#ARTIST a\n#TITLE t";
    assert_eq!(lookup_name(no_final_newline.as_bytes()), names("a", "t"));
}

#[test]
fn shift_jis_headers_are_read_through_the_fallback() {
    assert_eq!(lookup_name(&shift_jis_chart()), names("作者", "曲名"));
}

#[test]
fn the_fallback_fills_in_only_what_utf8_lacks() {
    let mut chart = b"#ARTIST Foo\n#TITLE ".to_vec();
    chart.extend_from_slice(&[0x8b, 0xc8, 0x96, 0xbc]);
    chart.extend_from_slice(b"\n");
    assert_eq!(lookup_name(&chart), names("Foo", "曲名"));
}

#[test]
fn utf8_reading_stops_at_the_first_line_that_is_not_utf8() {
    // the title stands after a line that is no UTF-8: only the fallback finds it
    let mut chart = b"#ARTIST Foo\n#GENRE ".to_vec();
    chart.extend_from_slice(&[0x8b, 0xc8]);
    chart.extend_from_slice(b"\n#TITLE Bar\n");
    assert_eq!(lookup_name(&chart), names("Foo", "Bar"));
    let first = read_artist_and_title(&beatman::text::lines_of_utf8(&chart));
    assert_eq!(first, (Some("Foo".to_string()), None));
}

#[test]
fn a_chart_without_names_gives_an_error() {
    assert_eq!(lookup_name(b""), Err(NameError::Missing));
    assert_eq!(lookup_name(b"#TITLE only\n"), Err(NameError::Missing));
    assert_eq!(lookup_name(b"#ARTIST only\n"), Err(NameError::Missing));
    assert_eq!(lookup_name(b"#BPM 120\n"), Err(NameError::Missing));
}

#[test]
fn an_empty_name_gives_an_error() {
    assert_eq!(lookup_name(b"#ARTIST \n#TITLE t\n"), Err(NameError::Blank));
    assert_eq!(lookup_name(b"#ARTIST a\n#TITLE \n"), Err(NameError::Blank));
}

#[test]
fn names_with_fallback_keeps_complete_names() {
    let first = (Some("a".to_string()), Some("t".to_string()));
    assert_eq!(names_with_fallback(first, "#ARTIST x\n#TITLE y\n"), names("a", "t"));
    let first = (None, Some("t".to_string()));
    assert_eq!(names_with_fallback(first, "#ARTIST x\n#TITLE y\n"), names("x", "t"));
    let first = (None, None);
    assert_eq!(names_with_fallback(first, "#ARTIST x\r\n#TITLE y\r\n"), names("x", "y"));
    assert_eq!(names_with_fallback((None, None), "nothing"), Err(NameError::Missing));
    assert_eq!(
        names_with_fallback((Some("".to_string()), None), "#TITLE y"),
        Err(NameError::Blank)
    );
}

#[test]
fn names_are_looked_up_file_by_file() {
    let found = lookup_names(&vec![
        b"#ARTIST a\n#TITLE t\n".to_vec(),
        b"junk".to_vec(),
        shift_jis_chart(),
    ]);
    assert_eq!(found, vec![names("a", "t"), Err(NameError::Missing), names("作者", "曲名")]);
}

#[test]
fn sanitize_takes_out_what_a_file_name_cannot_hold() {
    assert_eq!(sanitize_str("a/b\"c?d<e>f*g:h|i.j", 100), "abcdefghij");
    assert_eq!(sanitize_str("/\"?<>*:|.", 100), "");
    assert_eq!(sanitize_str("plain name", 100), "plain name");
    assert_eq!(sanitize_str("", 10), "");
}

#[test]
fn sanitize_cuts_to_the_limit() {
    assert_eq!(sanitize_str("abcdefghij", 4), "abcd");
    assert_eq!(sanitize_str("abcdefghij", 10), "abcdefghij");
    assert_eq!(sanitize_str("abcdefghij", 11), "abcdefghij");
    assert_eq!(sanitize_str("abcdefghij", 0), "");
    assert_eq!(sanitize_str("a.b.c.d", 3), "abc");
}

#[test]
fn sanitize_never_splits_a_character() {
    // each of these characters takes three bytes
    assert_eq!(sanitize_str("ああああ", 3), "あ");
    assert_eq!(sanitize_str("ああああ", 4), "あ");
    assert_eq!(sanitize_str("ああああ", 5), "あ");
    assert_eq!(sanitize_str("ああああ", 6), "ああ");
    assert_eq!(sanitize_str("ああああ", 2), "");
    assert_eq!(sanitize_str("あいう", 4), "あ");
    assert_eq!(sanitize_str("aあ", 2), "a");
    assert_eq!(sanitize_str("aあ", 4), "aあ");
    assert_eq!(sanitize_str("é", 1), "");
    assert_eq!(sanitize_str("é", 2), "é");
    assert_eq!(sanitize_str("𝄞x", 3), "");
    assert_eq!(sanitize_str("𝄞x", 4), "𝄞");
    assert_eq!(sanitize_str("ああ", 0), "");
}

#[test]
fn sanitized_text_is_clean_short_and_whole() {
    let samples = [
        "Some / Artist: feat. \"Other\" <x> *y* |z| ?",
        "日本語のタイトル・とても長い名前がここに入ります。さらに続きます。",
        "mixed 日本語 and ascii.. with dots...",
        "𝄞𝄞𝄞𝄞𝄞𝄞𝄞𝄞𝄞𝄞𝄞𝄞𝄞𝄞𝄞𝄞𝄞𝄞𝄞𝄞",
        "",
    ];
    for sample in samples {
        for limit in [0usize, 1, 2, 3, 4, 5, 7, 10, 50, 100] {
            let clean = sanitize_str(sample, limit);
            assert!(!clean.contains(['/', '"', '?', '<', '>', '*', ':', '|', '.']));
            assert!(clean.len() <= limit);
            let kept: String = sample.chars().filter(|c| !"/\"?<>*:|.".contains(*c)).collect();
            assert!(kept.starts_with(&clean));
            // nothing more would fit
            if let Some(next) = kept[clean.len()..].chars().next() {
                assert!(clean.len() + next.len_utf8() > limit);
            }
        }
    }
}

#[test]
fn difficulty_in_brackets_is_taken_off_the_end() {
    assert_eq!(remove_difficulty("Song Name [ANOTHER]"), "Song Name");
    assert_eq!(remove_difficulty("Song Name[7KEY]"), "Song Name");
    assert_eq!(remove_difficulty("Song  [HYPER]  "), "Song");
    assert_eq!(remove_difficulty("曲名 [SP ANOTHER]"), "曲名");
    assert_eq!(remove_difficulty("Song []"), "Song");
}

#[test]
fn titles_without_a_difficulty_at_the_end_stay() {
    assert_eq!(remove_difficulty("Song Name"), "Song Name");
    assert_eq!(remove_difficulty("Song [x] tail"), "Song [x] tail");
    assert_eq!(remove_difficulty("[ANOTHER]"), "[ANOTHER]");
    assert_eq!(remove_difficulty(""), "");
    assert_eq!(remove_difficulty("Song (ANOTHER)"), "Song (ANOTHER)");
}

#[test]
fn the_title_proper_is_as_short_as_can_be() {
    assert_eq!(remove_difficulty("Song [A] [B]"), "Song");
    assert_eq!(remove_difficulty("a[b]c[d]"), "a");
}

#[test]
fn stem_is_the_captured_part_or_the_whole_title() {
    assert_eq!(stem_or_name("Song [A]", Some("Song".to_string())), "Song");
    assert_eq!(stem_or_name("Song", None), "Song");
    assert_eq!(stem_or_name("Song", Some("".to_string())), "");
}

#[test]
fn name_is_made_of_the_shortest_artist_and_title() {
    let name = compose_name(
        &texts(&["Foo feat. Bar", "Foo", "Foo / obj: X"]),
        &texts(&["Song Long", "Song", "Song -extended-"]),
    );
    assert_eq!(name, Some("[Foo] Song".to_string()));
}

#[test]
fn among_equally_short_texts_the_first_wins() {
    assert_eq!(
        compose_name(&texts(&["ab", "cd"]), &texts(&["xyz", "uvw", "rst"])),
        Some("[ab] xyz".to_string())
    );
}

#[test]
fn shortness_is_counted_in_bytes() {
    // two characters of three bytes each are longer than five letters
    assert_eq!(
        compose_name(&texts(&["ああ", "abcde"]), &texts(&["t"])),
        Some("[abcde] t".to_string())
    );
}

#[test]
fn no_name_without_an_artist_or_a_title() {
    assert_eq!(compose_name(&texts(&[]), &texts(&["t"])), None);
    assert_eq!(compose_name(&texts(&["a"]), &texts(&[])), None);
    assert_eq!(compose_name(&texts(&[]), &texts(&[])), None);
}

#[test]
fn name_parts_are_sanitized_and_cut() {
    assert_eq!(
        compose_name(&texts(&["A/B: C."]), &texts(&["What? <Yes>"])),
        Some("[AB C] What Yes".to_string())
    );
    let long_artist = "a".repeat(60);
    let long_title = "t".repeat(120);
    let name = compose_name(&vec![long_artist], &vec![long_title]).unwrap();
    assert_eq!(name, format!("[{}] {}", "a".repeat(50), "t".repeat(100)));
    assert_eq!(compose_name(&texts(&["..."]), &texts(&["???"])), Some("[] ".to_string()));
}

#[test]
fn folder_name_comes_from_its_charts() {
    let charts = vec![
        b"#ARTIST Foo\n#TITLE Song [NORMAL]\n".to_vec(),
        b"#ARTIST Foo / obj: X\n#TITLE Song [ANOTHER]\n".to_vec(),
        b"no header here".to_vec(),
    ];
    assert_eq!(read_files_and_name(&charts), Some("[Foo] Song".to_string()));
}

#[test]
fn folder_without_readable_charts_has_no_name() {
    assert_eq!(read_files_and_name(&vec![]), None);
    assert_eq!(read_files_and_name(&vec![b"junk".to_vec(), b"#TITLE t\n".to_vec()]), None);
    assert_eq!(read_files_and_name(&vec![b"#ARTIST \n#TITLE t\n".to_vec()]), None);
}

#[test]
fn folder_name_from_shift_jis_charts() {
    assert_eq!(read_files_and_name(&vec![shift_jis_chart()]), Some("[作者] 曲名".to_string()));
}

#[test]
fn renamed_folder_stays_beside_itself() {
    let dest = rename_target(&path(&["r", "old"]), &Some("[a] t".to_string())).unwrap();
    assert_eq!(show(&dest), "r/[a] t");
    assert!(rename_target(&path(&["r", "old"]), &None).is_none());
    assert!(rename_target(&path(&[]), &Some("[a] t".to_string())).is_none());
    let top = rename_target(&path(&["old"]), &Some("[a] t".to_string())).unwrap();
    assert_eq!(show(&top), "[a] t");
}

#[test]
fn rename_stage_lists_the_folders_to_rename() {
    let named = b"#ARTIST Foo\n#TITLE Song [NORMAL]\n".to_vec();
    let other = b"#ARTIST Bar\n#TITLE Tune\n".to_vec();
    let folders = vec![
        FolderCharts { folder: path(&["r", "dl_001"]), charts: vec![named.clone()] },
        FolderCharts { folder: path(&["r", "[Bar] Tune"]), charts: vec![other] },
        FolderCharts { folder: path(&["r", "empty"]), charts: vec![] },
        FolderCharts { folder: path(&["r", "sub", "x"]), charts: vec![named] },
    ];
    let found: Vec<(String, String)> =
        rename_dirs(&folders).iter().map(|m| (show(&m.from), show(&m.dest))).collect();
    assert_eq!(
        found,
        vec![
            ("r/dl_001".to_string(), "r/[Foo] Song".to_string()),
            ("r/sub/x".to_string(), "r/sub/[Foo] Song".to_string()),
        ]
    );
}

#[test]
fn a_second_rename_pass_finds_nothing_to_do() {
    let chart = b"#ARTIST Foo\n#TITLE Song [NORMAL]\n".to_vec();
    let first = rename_dirs(&vec![FolderCharts {
        folder: path(&["r", "dl_001"]),
        charts: vec![chart.clone()],
    }]);
    assert_eq!(first.len(), 1);
    let second =
        rename_dirs(&vec![FolderCharts { folder: first[0].dest.duplicate(), charts: vec![chart] }]);
    assert!(second.is_empty());
}

#[test]
fn rename_onto_something_that_exists_is_called_off() {
    assert_eq!(rename_action(true, false), RenameAction::Cancel);
    assert_eq!(rename_action(true, true), RenameAction::Cancel);
    assert_eq!(rename_action(false, true), RenameAction::DryRun);
    assert_eq!(rename_action(false, false), RenameAction::Move);
}
