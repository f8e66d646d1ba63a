//! Listing the charts that a player has left alone the longest.

use crate::numbers::{decimal, last_three_digits, push_decimal, rem_towards_zero};
use crate::path::{lemma_views_push, views};
use crate::utils::{
    add_and_write_table_json, lamp_id, lamp_to_id, with_folder, DefaultTable, DefaultTableFolder,
    DefaultTableSong, FolderModel, InvalidLamp, SongModel, TableModel, FOLDER_CLASS, SONG_CLASS,
};
use chrono::{TimeZone, Utc};
use vstd::prelude::*;
use vstd::string::StringExecFns;

verus! {

/// A player's score on a chart, with the time of its last play in seconds
/// since 1970.
#[derive(Debug, Clone)]
pub struct Score {
    pub sha256: String,
    pub clear: u8,
    pub playcount: u32,
    pub minbp: u32,
    pub scorehash: String,
    pub date: u64,
}

/// What a [`Score`] stands for.
pub struct ScoreModel {
    pub sha256: Seq<char>,
    pub clear: u8,
    pub playcount: u32,
    pub minbp: u32,
    pub scorehash: Seq<char>,
    pub date: u64,
}

impl View for Score {
    type V = ScoreModel;

    open spec fn view(&self) -> ScoreModel {
        ScoreModel {
            sha256: self.sha256@,
            clear: self.clear,
            playcount: self.playcount,
            minbp: self.minbp,
            scorehash: self.scorehash@,
            date: self.date,
        }
    }
}

/// Why there is no list.
#[derive(Debug)]
pub enum OldestError {
    /// The target lamp has no number.
    Lamp(InvalidLamp),
    /// A score or the present lies outside the times that can be told.
    Date,
}

/// The whole days from one time to another, both in seconds since 1970, the
/// later with its nanoseconds; `None` where one of them lies outside the
/// times that can be told.
pub uninterp spec fn days_since(then_secs: int, now_secs: int, now_nanos: int) -> Option<int>;

/// The whole days in the time from `then_secs` to `now_secs` seconds and
/// `now_nanos` nanoseconds: the whole seconds of that time, divided by the
/// seconds of a day, both rounded towards zero.
pub open spec fn whole_days(then_secs: int, now_secs: int, now_nanos: int) -> int {
    let apart = now_secs - then_secs;
    let seconds = if apart < 0 && now_nanos > 0 {
        apart + 1
    } else {
        apart
    };
    if seconds >= 0 {
        seconds / 86400
    } else {
        -((-seconds) / 86400)
    }
}

/// Makes both times with `chrono::Utc.timestamp_opt`, subtracts them and
/// takes `TimeDelta::num_days` of the difference. The contract names the
/// outcome, the same three numbers giving the same result, and states it
/// where there is one and the nanoseconds stay below a second: the difference
/// in whole seconds, divided by 86400 towards zero. Which times can be told
/// is left to the name.
#[verifier::external_body]
fn whole_days_since(then_secs: i64, now_secs: i64, now_nanos: u32) -> (days: Option<i64>)
    ensures
        match days {
            Some(d) => days_since(then_secs as int, now_secs as int, now_nanos as int) == Some(
                d as int,
            ) && (now_nanos < 1_000_000_000 ==> d == whole_days(
                then_secs as int,
                now_secs as int,
                now_nanos as int,
            )),
            None => days_since(then_secs as int, now_secs as int, now_nanos as int) is None,
        },
{
    let then = Utc.timestamp_opt(then_secs, 0).single()?;
    let now = Utc.timestamp_opt(now_secs, now_nanos).single()?;
    Some((now - then).num_days())
}

/// A count of seconds read as a signed number of 64 bits.
pub open spec fn as_signed(date: u64) -> int {
    if date <= i64::MAX {
        date as int
    } else {
        date - 0x1_0000_0000_0000_0000
    }
}

/// The title under which a chart is listed: how many days ago it was played.
pub open spec fn days_ago(days: int) -> Seq<char> {
    decimal(days) + " days ago"@
}

/// The title under which a chart played `days` days ago is listed.
pub fn days_ago_title(days: i64) -> (title: String)
    ensures
        title@ == days_ago(days as int),
{
    let mut title = String::new();
    push_decimal(&mut title, days);
    title.append(" days ago");
    title
}

/// The songs of the list for the first scores, or `None` where a time
/// cannot be told.
pub open spec fn oldest_songs(scores: Seq<ScoreModel>, now_secs: i64, now_nanos: u32) -> Option<
    Seq<SongModel>,
>
    decreases scores.len(),
{
    if scores.len() == 0 {
        Some(Seq::empty())
    } else {
        let score = scores.last();
        match (
            oldest_songs(scores.drop_last(), now_secs, now_nanos),
            days_since(as_signed(score.date), now_secs as int, now_nanos as int),
        ) {
            (Some(before), Some(days)) => Some(
                before.push(
                    SongModel { class: SONG_CLASS@, title: days_ago(days), sha256: score.sha256 },
                ),
            ),
            _ => None,
        }
    }
}

/// The songs of the list where every time can be told and the nanoseconds
/// stay below a second: each score under its whole days.
pub open spec fn dated_songs(scores: Seq<ScoreModel>, now_secs: i64, now_nanos: u32) -> Seq<
    SongModel,
> {
    Seq::new(
        scores.len(),
        |k: int|
            SongModel {
                class: SONG_CLASS@,
                title: days_ago(
                    whole_days(as_signed(scores[k].date), now_secs as int, now_nanos as int),
                ),
                sha256: scores[k].sha256,
            },
    )
}

/// The name of the folder of a list.
pub open spec fn oldest_name(target_lamp: Seq<char>, today: Seq<char>, stamp: i64) -> Seq<char> {
    "OLDEST_<"@ + target_lamp + "_"@ + today + "-"@ + decimal(rem_towards_zero(stamp as int, 1000))
}

/// The table that a list starts from: the one read from its file, or an
/// empty one named `Oldest` where there is no file or the list starts anew.
pub open spec fn starting_table(table: Option<TableModel>, reset: bool) -> TableModel {
    match table {
        Some(t) => if reset {
            TableModel { name: "Oldest"@, folder: Some(Seq::empty()) }
        } else {
            t
        },
        None => TableModel { name: "Oldest"@, folder: Some(Seq::empty()) },
    }
}

/// The list, or why there is none.
pub open spec fn oldest_table(
    table: Option<TableModel>,
    reset: bool,
    scores: Seq<ScoreModel>,
    target_lamp: Seq<char>,
    now_secs: i64,
    now_nanos: u32,
    today: Seq<char>,
    stamp: i64,
) -> Option<TableModel> {
    match oldest_songs(scores, now_secs, now_nanos) {
        Some(songs) => Some(
            with_folder(
                starting_table(table, reset),
                FolderModel {
                    class: FOLDER_CLASS@,
                    name: oldest_name(target_lamp, today, stamp),
                    songs,
                },
            ),
        ),
        None => None,
    }
}

/// The view of a table that may be missing.
pub open spec fn table_view(table: Option<DefaultTable>) -> Option<TableModel> {
    match table {
        Some(t) => Some(t@),
        None => None,
    }
}

/// Adds to a table the list of the charts that were played longest ago.
/// The scores come as the score database gives them for the lamp aimed at,
/// oldest first; each is listed under the number of whole days since it was
/// played. The list goes, as a folder named after the lamp, the day and the
/// last three digits of the stamp, into the table read from the list's file,
/// or into an empty table named `Oldest` where there is no file or `reset`
/// is set. A lamp without a number is an error, and so is a time that cannot
/// be told.
pub fn create_oldest_played_folder(
    table: Option<DefaultTable>,
    reset: bool,
    scores: &Vec<Score>,
    target_lamp: &str,
    now_secs: i64,
    now_nanos: u32,
    today: &str,
    stamp: i64,
) -> (listed: Result<DefaultTable, OldestError>)
    ensures
        match listed {
            Ok(updated) => lamp_id(target_lamp@) is Some && oldest_table(
                table_view(table),
                reset,
                views(scores@),
                target_lamp@,
                now_secs,
                now_nanos,
                today@,
                stamp,
            ) == Some(updated@) && (now_nanos < 1_000_000_000 ==> oldest_songs(
                views(scores@),
                now_secs,
                now_nanos,
            ) == Some(dated_songs(views(scores@), now_secs, now_nanos))),
            Err(OldestError::Lamp(e)) => lamp_id(target_lamp@) is None && e.lamp@ == target_lamp@,
            Err(OldestError::Date) => lamp_id(target_lamp@) is Some && oldest_songs(
                views(scores@),
                now_secs,
                now_nanos,
            ) is None,
        },
{
    match lamp_to_id(target_lamp) {
        Ok(_) => {},
        Err(e) => {
            return Err(OldestError::Lamp(e));
        },
    }
    let ghost all = views(scores@);
    let mut songs: Vec<DefaultTableSong> = Vec::new();
    let mut i: usize = 0;
    assert(views(songs@) =~= Seq::<SongModel>::empty());
    assert(dated_songs(all.subrange(0, 0), now_secs, now_nanos) =~= Seq::<SongModel>::empty());
    while i < scores.len()
        invariant
            i <= scores.len(),
            all == views(scores@),
            lamp_id(target_lamp@) is Some,
            oldest_songs(all.subrange(0, i as int), now_secs, now_nanos) == Some(views(songs@)),
            now_nanos < 1_000_000_000 ==> views(songs@) == dated_songs(
                all.subrange(0, i as int),
                now_secs,
                now_nanos,
            ),
        decreases scores.len() - i,
    {
        let score = &scores[i];
        proof {
            assert(all.subrange(0, i + 1).drop_last() == all.subrange(0, i as int));
            assert(all.subrange(0, i + 1).last() == score@);
        }
        let then: i64 = if score.date <= i64::MAX as u64 {
            score.date as i64
        } else {
            (score.date as i128 - 0x1_0000_0000_0000_0000i128) as i64
        };
        match whole_days_since(then, now_secs, now_nanos) {
            Some(days) => {
                let song = DefaultTableSong::new(days_ago_title(days), score.sha256.clone());
                proof {
                    lemma_views_push(songs@, song);
                    if now_nanos < 1_000_000_000 {
                        assert(views(songs@).push(song@) =~= dated_songs(
                            all.subrange(0, i + 1),
                            now_secs,
                            now_nanos,
                        ));
                    }
                }
                songs.push(song);
            },
            None => {
                proof {
                    lemma_oldest_songs_fail(all, now_secs, now_nanos, i + 1);
                }
                return Err(OldestError::Date);
            },
        }
        i += 1;
    }
    assert(all.subrange(0, scores.len() as int) == all);
    let mut name = "OLDEST_<".to_owned();
    name.append(target_lamp);
    name.append("_");
    name.append(today);
    name.append("-");
    push_decimal(&mut name, last_three_digits(stamp));
    let start = match table {
        Some(t) => if reset {
            DefaultTable { name: "Oldest".to_owned(), folder: Some(Vec::new()) }
        } else {
            t
        },
        None => DefaultTable { name: "Oldest".to_owned(), folder: Some(Vec::new()) },
    };
    assert(start@ == starting_table(table_view(table), reset)) by {
        assert(views(Seq::<DefaultTableFolder>::empty()) =~= Seq::<FolderModel>::empty());
    }
    Ok(add_and_write_table_json(start, name, songs))
}

/// Once the first scores give no list, all of them give none.
pub proof fn lemma_oldest_songs_fail(scores: Seq<ScoreModel>, now_secs: i64, now_nanos: u32, n: int)
    requires
        0 <= n <= scores.len(),
        oldest_songs(scores.subrange(0, n), now_secs, now_nanos) is None,
    ensures
        oldest_songs(scores, now_secs, now_nanos) is None,
    decreases scores.len() - n,
{
    if n < scores.len() {
        assert(scores.subrange(0, n + 1).drop_last() == scores.subrange(0, n));
        lemma_oldest_songs_fail(scores, now_secs, now_nanos, n + 1);
    } else {
        assert(scores.subrange(0, n) == scores);
    }
}

} // verus!
