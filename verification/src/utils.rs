//! The table file of the player, into which folders of songs are added, and
//! the numbering of clear lamps.

use crate::path::{lemma_views_push, views};
use crate::text::str_eq;
use vstd::prelude::*;

verus! {

/// The class name that the player expects of a folder of a table.
pub const FOLDER_CLASS: &'static str = "bms.player.beatoraja.TableData$TableFolder";

/// The class name that the player expects of a song of a table.
pub const SONG_CLASS: &'static str = "bms.player.beatoraja.song.SongData";

/// What a [`DefaultTableSong`] stands for.
pub struct SongModel {
    pub class: Seq<char>,
    pub title: Seq<char>,
    pub sha256: Seq<char>,
}

/// A song of a table: a title to show, and the content hash of its chart.
#[derive(Debug, Clone)]
pub struct DefaultTableSong {
    pub class: String,
    pub title: String,
    pub sha256: String,
}

impl View for DefaultTableSong {
    type V = SongModel;

    open spec fn view(&self) -> SongModel {
        SongModel { class: self.class@, title: self.title@, sha256: self.sha256@ }
    }
}

impl DefaultTableSong {
    /// The song with this title and this chart, of the class [`SONG_CLASS`].
    pub fn new(title: String, sha256: String) -> (song: Self)
        ensures
            song@ == (SongModel { class: SONG_CLASS@, title: title@, sha256: sha256@ }),
    {
        DefaultTableSong { class: SONG_CLASS.to_owned(), title, sha256 }
    }
}

/// What a [`DefaultTableFolder`] stands for.
pub struct FolderModel {
    pub class: Seq<char>,
    pub name: Seq<char>,
    pub songs: Seq<SongModel>,
}

/// A folder of a table: a name and the songs under it.
#[derive(Debug, Clone)]
pub struct DefaultTableFolder {
    pub class: String,
    pub name: String,
    pub songs: Vec<DefaultTableSong>,
}

impl View for DefaultTableFolder {
    type V = FolderModel;

    open spec fn view(&self) -> FolderModel {
        FolderModel { class: self.class@, name: self.name@, songs: views(self.songs@) }
    }
}

impl DefaultTableFolder {
    /// The folder with this name and these songs, of the class [`FOLDER_CLASS`].
    pub fn new(name: String, songs: Vec<DefaultTableSong>) -> (folder: Self)
        ensures
            folder@ == (FolderModel { class: FOLDER_CLASS@, name: name@, songs: views(songs@) }),
    {
        DefaultTableFolder { class: FOLDER_CLASS.to_owned(), name, songs }
    }
}

/// What a [`DefaultTable`] stands for.
pub struct TableModel {
    pub name: Seq<char>,
    pub folder: Option<Seq<FolderModel>>,
}

/// A table file: a name and, where the file has them, its folders.
#[derive(Debug, Clone)]
pub struct DefaultTable {
    pub name: String,
    pub folder: Option<Vec<DefaultTableFolder>>,
}

impl View for DefaultTable {
    type V = TableModel;

    open spec fn view(&self) -> TableModel {
        TableModel {
            name: self.name@,
            folder: match self.folder {
                Some(folders) => Some(views(folders@)),
                None => None,
            },
        }
    }
}

/// A table with one more folder after those that it has.
pub open spec fn with_folder(table: TableModel, folder: FolderModel) -> TableModel {
    TableModel {
        name: table.name,
        folder: Some(
            match table.folder {
                Some(folders) => folders.push(folder),
                None => seq![folder],
            },
        ),
    }
}

/// Adds a folder with the given name and songs to a table that was read
/// from its file, for the caller to write back: the new folder comes after the
/// folders that the table has, and is the only one of a table that had none.
pub fn add_and_write_table_json(
    table: DefaultTable,
    folder_name: String,
    songs: Vec<DefaultTableSong>,
) -> (updated: DefaultTable)
    ensures
        updated@ == with_folder(
            table@,
            FolderModel { class: FOLDER_CLASS@, name: folder_name@, songs: views(songs@) },
        ),
{
    let new_folder = DefaultTableFolder::new(folder_name, songs);
    let DefaultTable { name, folder } = table;
    let mut folders: Vec<DefaultTableFolder> = match folder {
        Some(f) => f,
        None => Vec::new(),
    };
    proof {
        lemma_views_push(folders@, new_folder);
        if table.folder is None {
            assert(views(folders@).push(new_folder@) =~= seq![new_folder@]);
        }
    }
    folders.push(new_folder);
    DefaultTable { name, folder: Some(folders) }
}

/// A lamp that has no number.
#[derive(Debug, Clone)]
pub struct InvalidLamp {
    /// The name that was given.
    pub lamp: String,
}

impl InvalidLamp {
    /// The complaint, as shown to the user.
    pub fn message(&self) -> (text: String)
        ensures
            text@ == "Invalid Lamp: "@ + self.lamp@,
    {
        let mut text = "Invalid Lamp: ".to_owned();
        vstd::string::StringExecFns::append(&mut text, self.lamp.as_str());
        text
    }
}

/// The number of a clear lamp, by its name.
pub open spec fn lamp_id(lamp: Seq<char>) -> Option<u8> {
    if lamp == "AEASY"@ {
        Some(3u8)
    } else if lamp == "EASY"@ {
        Some(4u8)
    } else if lamp == "NORMAL"@ {
        Some(5u8)
    } else if lamp == "HARD"@ {
        Some(6u8)
    } else if lamp == "EXHARD"@ {
        Some(7u8)
    } else if lamp == "FC"@ {
        Some(8u8)
    } else if lamp == "PERFECT"@ {
        Some(9u8)
    } else {
        None
    }
}

/// The number under which the score database files a clear lamp: 3 for
/// `AEASY` up to 9 for `PERFECT`. Any other name is an error.
pub fn lamp_to_id(lamp: &str) -> (id: Result<u8, InvalidLamp>)
    ensures
        match id {
            Ok(n) => lamp_id(lamp@) == Some(n),
            Err(e) => lamp_id(lamp@) is None && e.lamp@ == lamp@,
        },
{
    if str_eq(lamp, "AEASY") {
        Ok(3)
    } else if str_eq(lamp, "EASY") {
        Ok(4)
    } else if str_eq(lamp, "NORMAL") {
        Ok(5)
    } else if str_eq(lamp, "HARD") {
        Ok(6)
    } else if str_eq(lamp, "EXHARD") {
        Ok(7)
    } else if str_eq(lamp, "FC") {
        Ok(8)
    } else if str_eq(lamp, "PERFECT") {
        Ok(9)
    } else {
        Err(InvalidLamp { lamp: lamp.to_owned() })
    }
}

} // verus!
