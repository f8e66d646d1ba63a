use beatman::utils::{
    add_and_write_table_json, lamp_to_id, DefaultTable, DefaultTableFolder, DefaultTableSong,
    InvalidLamp, FOLDER_CLASS, SONG_CLASS,
};
use beatman::FrontendMsg;

#[test]
fn lamps_have_their_numbers() {
    assert_eq!(lamp_to_id("AEASY").unwrap(), 3);
    assert_eq!(lamp_to_id("EASY").unwrap(), 4);
    assert_eq!(lamp_to_id("NORMAL").unwrap(), 5);
    assert_eq!(lamp_to_id("HARD").unwrap(), 6);
    assert_eq!(lamp_to_id("EXHARD").unwrap(), 7);
    assert_eq!(lamp_to_id("FC").unwrap(), 8);
    assert_eq!(lamp_to_id("PERFECT").unwrap(), 9);
}

#[test]
fn other_lamps_are_invalid() {
    for lamp in ["", "hard", "Hard", "HARD ", " HARD", "FAILED", "MAX", "EX-HARD"] {
        let error = lamp_to_id(lamp).unwrap_err();
        assert_eq!(error.lamp, lamp);
        assert_eq!(error.message(), format!("Invalid Lamp: {}", lamp));
    }
    assert_eq!(InvalidLamp { lamp: "X".to_string() }.message(), "Invalid Lamp: X");
}

#[test]
fn song_carries_the_class_of_the_player() {
    let song = DefaultTableSong::new("title".to_string(), "abc123".to_string());
    assert_eq!(song.class, "bms.player.beatoraja.song.SongData");
    assert_eq!(song.class, SONG_CLASS);
    assert_eq!(song.title, "title");
    assert_eq!(song.sha256, "abc123");
}

#[test]
fn folder_carries_the_class_of_the_player() {
    let song = DefaultTableSong::new("t".to_string(), "h".to_string());
    let folder = DefaultTableFolder::new("name".to_string(), vec![song]);
    assert_eq!(folder.class, "bms.player.beatoraja.TableData$TableFolder");
    assert_eq!(folder.class, FOLDER_CLASS);
    assert_eq!(folder.name, "name");
    assert_eq!(folder.songs.len(), 1);
    assert_eq!(folder.songs[0].title, "t");
}

#[test]
fn new_folder_comes_after_the_others() {
    let first = DefaultTableFolder::new("first".to_string(), vec![]);
    let table = DefaultTable { name: "T".to_string(), folder: Some(vec![first]) };
    let song = DefaultTableSong::new("t".to_string(), "h".to_string());
    let updated = add_and_write_table_json(table, "second".to_string(), vec![song]);
    assert_eq!(updated.name, "T");
    let folders = updated.folder.unwrap();
    assert_eq!(folders.len(), 2);
    assert_eq!(folders[0].name, "first");
    assert_eq!(folders[1].name, "second");
    assert_eq!(folders[1].class, FOLDER_CLASS);
    assert_eq!(folders[1].songs.len(), 1);
    assert_eq!(folders[1].songs[0].sha256, "h");
}

#[test]
fn a_table_without_folders_gets_its_first() {
    let table = DefaultTable { name: "T".to_string(), folder: None };
    let updated = add_and_write_table_json(table, "only".to_string(), vec![]);
    let folders = updated.folder.unwrap();
    assert_eq!(folders.len(), 1);
    assert_eq!(folders[0].name, "only");
    assert!(folders[0].songs.is_empty());
    let table = DefaultTable { name: "T".to_string(), folder: Some(vec![]) };
    let updated = add_and_write_table_json(table, "only".to_string(), vec![]);
    assert_eq!(updated.folder.unwrap().len(), 1);
}

#[test]
fn message_kinds_have_their_names() {
    assert_eq!(FrontendMsg::CheckNotFound.name(), "CheckNotFound");
    assert_eq!(FrontendMsg::CheckSummary.name(), "CheckSummary");
}
