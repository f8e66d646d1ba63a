//! Choosing the charts of a day's task.
//!
//! From the charts of a table that a player has not cleared with the lamp
//! aimed at, the task takes the easiest and least played, until their notes
//! add up to the amount wanted.

use crate::lists::{first_where, holds_where, lemma_first_where, lemma_first_where_is};
use crate::numbers::{
    decimal, digits, last_three_digits, parse_number, parsed, push_decimal, push_digits,
    rem_towards_zero,
};
use crate::path::{lemma_views_push, views};
use crate::table_loader::{ScoreModel, TableLoader};
use crate::utils::{lamp_id, lamp_to_id, DefaultTableSong, InvalidLamp, SongModel, SONG_CLASS};
use vstd::prelude::*;
use vstd::string::StringExecFns;

verus! {

/// What a [`TableData`] stands for.
pub struct TableDataModel {
    pub sha256: Seq<char>,
    pub title: Seq<char>,
    pub level: u32,
}

/// A chart of a table with its level as a number.
#[derive(Debug, Clone)]
pub struct TableData {
    pub sha256: String,
    pub title: String,
    pub level: u32,
}

impl View for TableData {
    type V = TableDataModel;

    open spec fn view(&self) -> TableDataModel {
        TableDataModel { sha256: self.sha256@, title: self.title@, level: self.level }
    }
}

/// A level that is no number.
#[derive(Debug, Clone)]
pub struct LevelError {
    /// The level as the table gives it.
    pub level: String,
}

/// Whether a chart of this level is a candidate above this lower limit: a
/// chart whose level is no number up to 255 is one whatever the limit.
pub open spec fn above_limit(level: Seq<char>, lower_limit_level: u8) -> bool {
    match parsed(level, 255) {
        Some(n) => n >= lower_limit_level,
        None => true,
    }
}

/// The candidates among the first charts of a table, or the level of the
/// first candidate whose level is no number.
pub open spec fn candidates(table: Seq<ScoreModel>, lower_limit_level: u8) -> Result<
    Seq<TableDataModel>,
    Seq<char>,
>
    decreases table.len(),
{
    if table.len() == 0 {
        Ok(Seq::empty())
    } else {
        let chart = table.last();
        match candidates(table.drop_last(), lower_limit_level) {
            Err(level) => Err(level),
            Ok(before) => if !above_limit(chart.level, lower_limit_level) {
                Ok(before)
            } else {
                match parsed(chart.level, u32::MAX as nat) {
                    Some(n) => Ok(
                        before.push(
                            TableDataModel {
                                sha256: chart.sha256,
                                title: chart.title,
                                level: n as u32,
                            },
                        ),
                    ),
                    None => Err(chart.level),
                }
            },
        }
    }
}

/// The charts of a table that may go into a task: those at or above the
/// lower limit of level, each with its level as a number. A candidate whose
/// level is no number is an error, the first of them in the order of the
/// table.
pub fn task_candidates(table: &TableLoader, lower_limit_level: u8) -> (found: Result<
    Vec<TableData>,
    LevelError,
>)
    ensures
        match found {
            Ok(list) => candidates(table@, lower_limit_level) == Ok::<
                Seq<TableDataModel>,
                Seq<char>,
            >(views(list@)),
            Err(e) => candidates(table@, lower_limit_level) == Err::<
                Seq<TableDataModel>,
                Seq<char>,
            >(e.level@),
        },
{
    let charts = table.charts();
    let ghost all = views(charts@);
    let mut list: Vec<TableData> = Vec::new();
    let mut i: usize = 0;
    assert(views(list@) =~= Seq::<TableDataModel>::empty());
    while i < charts.len()
        invariant
            i <= charts.len(),
            all == views(charts@),
            all == table@,
            candidates(all.subrange(0, i as int), lower_limit_level) == Ok::<
                Seq<TableDataModel>,
                Seq<char>,
            >(views(list@)),
        decreases charts.len() - i,
    {
        let chart = &charts[i];
        proof {
            assert(all.subrange(0, i + 1).drop_last() == all.subrange(0, i as int));
            assert(all.subrange(0, i + 1).last() == chart@);
        }
        let above = match parse_number(chart.level.as_str(), 255) {
            Some(n) => n >= lower_limit_level as u32,
            None => true,
        };
        if above {
            match parse_number(chart.level.as_str(), u32::MAX) {
                Some(level) => {
                    let data = TableData {
                        sha256: chart.sha256.clone(),
                        title: chart.title.clone(),
                        level,
                    };
                    proof {
                        lemma_views_push(list@, data);
                    }
                    list.push(data);
                },
                None => {
                    proof {
                        lemma_candidates_fail(all, lower_limit_level, i + 1);
                    }
                    return Err(LevelError { level: chart.level.clone() });
                },
            }
        }
        i += 1;
    }
    assert(all.subrange(0, charts.len() as int) == all);
    Ok(list)
}

/// Once the first charts of a table give an error, the whole table gives it.
pub proof fn lemma_candidates_fail(table: Seq<ScoreModel>, lower_limit_level: u8, n: int)
    requires
        0 <= n <= table.len(),
        candidates(table.subrange(0, n), lower_limit_level) is Err,
    ensures
        candidates(table, lower_limit_level) == candidates(table.subrange(0, n), lower_limit_level),
    decreases table.len() - n,
{
    if n < table.len() {
        assert(table.subrange(0, n + 1).drop_last() == table.subrange(0, n));
        lemma_candidates_fail(table, lower_limit_level, n + 1);
    } else {
        assert(table.subrange(0, n) == table);
    }
}

/// A player's score on a chart.
#[derive(Debug, Clone)]
pub struct Score {
    pub sha256: String,
    pub clear: u8,
    pub playcount: u32,
    pub minbp: u32,
    pub scorehash: String,
}

/// What a [`TableDataWithScore`] stands for: the chart, the player's
/// score on it, its numbers 0 and its texts empty where there is none, and
/// the notes of the chart.
pub struct TaskChartModel {
    pub sha256: Seq<char>,
    pub title: Seq<char>,
    pub level: u32,
    pub played: bool,
    pub clear: u8,
    pub playcount: u32,
    pub minbp: u32,
    pub score_sha256: Seq<char>,
    pub scorehash: Seq<char>,
    pub totalnotes: u32,
}

/// A chart of a table with the player's score on it, if there is one, and
/// the number of its notes.
#[derive(Debug, Clone)]
pub struct TableDataWithScore {
    pub table_data: TableData,
    pub score: Option<Score>,
    pub totalnotes: u32,
}

impl View for TableDataWithScore {
    type V = TaskChartModel;

    open spec fn view(&self) -> TaskChartModel {
        TaskChartModel {
            sha256: self.table_data.sha256@,
            title: self.table_data.title@,
            level: self.table_data.level,
            played: self.score is Some,
            clear: match self.score {
                Some(s) => s.clear,
                None => 0,
            },
            playcount: match self.score {
                Some(s) => s.playcount,
                None => 0,
            },
            minbp: match self.score {
                Some(s) => s.minbp,
                None => 0,
            },
            score_sha256: match self.score {
                Some(s) => s.sha256@,
                None => Seq::empty(),
            },
            scorehash: match self.score {
                Some(s) => s.scorehash@,
                None => Seq::empty(),
            },
            totalnotes: self.totalnotes,
        }
    }
}

/// Whether the player has yet to clear a chart with the lamp numbered `lamp`.
pub open spec fn not_achieved(chart: TaskChartModel, lamp: u8) -> bool {
    !chart.played || chart.clear < lamp
}

/// Whether `a` comes after `b` in a task: by level, then by lamp, then by
/// play count.
pub open spec fn comes_after(a: TaskChartModel, b: TaskChartModel) -> bool {
    a.level > b.level || (a.level == b.level && (a.clear > b.clear || (a.clear == b.clear
        && a.playcount > b.playcount)))
}

/// Where a chart goes into charts that are in order: before the first that
/// comes after it, or last.
pub open spec fn place_of(sorted: Seq<TaskChartModel>, chart: TaskChartModel) -> int {
    let later = |other: TaskChartModel| comes_after(other, chart);
    if holds_where(sorted, later) {
        first_where(sorted, later)
    } else {
        sorted.len() as int
    }
}

/// The charts in order of level, lamp and play count; charts that are equal
/// in all three keep the order in which they came.
pub open spec fn in_order(charts: Seq<TaskChartModel>) -> Seq<TaskChartModel>
    decreases charts.len(),
{
    if charts.len() == 0 {
        Seq::empty()
    } else {
        let before = in_order(charts.drop_last());
        before.insert(place_of(before, charts.last()), charts.last())
    }
}

/// Charts put in order are in order, and are the charts that were given,
/// each as often as it was given.
pub proof fn lemma_in_order(charts: Seq<TaskChartModel>)
    ensures
        in_order(charts).len() == charts.len(),
        forall|i: int, j: int|
            0 <= i < j < charts.len() ==> !comes_after(
                #[trigger] in_order(charts)[i],
                #[trigger] in_order(charts)[j],
            ),
        in_order(charts).to_multiset() == charts.to_multiset(),
    decreases charts.len(),
{
    if charts.len() > 0 {
        let before = in_order(charts.drop_last());
        let chart = charts.last();
        let later = |other: TaskChartModel| comes_after(other, chart);
        let at = place_of(before, chart);
        let sorted = in_order(charts);
        lemma_in_order(charts.drop_last());
        if holds_where(before, later) {
            lemma_first_where(before, later);
        }
        assert forall|i: int, j: int| 0 <= i < j < charts.len() implies !comes_after(
            #[trigger] sorted[i],
            #[trigger] sorted[j],
        ) by {
            if j < at {
                assert(sorted[i] == before[i] && sorted[j] == before[j]);
            } else if j == at {
                assert(sorted[i] == before[i]);
                assert(!later(before[i]));
            } else if i < at {
                assert(sorted[i] == before[i] && sorted[j] == before[j - 1]);
            } else if i == at {
                assert(sorted[j] == before[j - 1]);
                assert(later(before[at]));
                assert(!comes_after(before[at], before[j - 1]) || at == j - 1);
            } else {
                assert(sorted[i] == before[i - 1] && sorted[j] == before[j - 1]);
            }
        }
        vstd::seq_lib::to_multiset_insert(before, at, chart);
        vstd::seq_lib::to_multiset_build(charts.drop_last(), chart);
        assert(charts.drop_last().push(chart) == charts);
        assert(sorted.to_multiset() == before.to_multiset().insert(chart));
        assert(charts.to_multiset() == charts.drop_last().to_multiset().insert(chart));
    } else {
        assert(charts =~= Seq::<TaskChartModel>::empty());
    }
}

/// How far a task reaches into charts in order, and the notes it counts:
/// charts are taken while the notes counted before them are below the
/// amount wanted, and the first chart that is not taken is still counted.
pub open spec fn taken(charts: Seq<TaskChartModel>, task_notes: u32, from: int, notes: nat) -> (
    int,
    nat,
)
    decreases charts.len() - from,
{
    if 0 <= from < charts.len() {
        if notes < task_notes {
            taken(charts, task_notes, from + 1, notes + charts[from].totalnotes as nat)
        } else {
            (from, notes + charts[from].totalnotes as nat)
        }
    } else {
        (from, notes)
    }
}

/// The song that stands for a chart in a task.
pub open spec fn song_of(chart: TaskChartModel) -> SongModel {
    SongModel { class: SONG_CLASS@, title: chart.title, sha256: chart.sha256 }
}

/// What a [`TaskFolder`] stands for.
pub struct TaskFolderModel {
    pub name: Seq<char>,
    pub songs: Seq<SongModel>,
    pub notes: nat,
}

/// A task: the name of its folder, its songs and the notes counted.
#[derive(Debug)]
pub struct TaskFolder {
    pub name: String,
    pub songs: Vec<DefaultTableSong>,
    pub notes: u64,
}

impl View for TaskFolder {
    type V = TaskFolderModel;

    open spec fn view(&self) -> TaskFolderModel {
        TaskFolderModel { name: self.name@, songs: views(self.songs@), notes: self.notes as nat }
    }
}

/// The task that the charts give for a lamp and an amount of notes, named
/// after the day and a stamp.
pub open spec fn task_of(
    charts: Seq<TaskChartModel>,
    lamp: u8,
    task_notes: u32,
    today: Seq<char>,
    stamp: i64,
) -> TaskFolderModel {
    let sorted = in_order(charts.filter(|chart: TaskChartModel| not_achieved(chart, lamp)));
    let (count, notes) = taken(sorted, task_notes, 0, 0);
    TaskFolderModel {
        name: today + " "@ + digits(notes) + " NOTES "@ + decimal(
            rem_towards_zero(stamp as int, 1000),
        ),
        songs: Seq::new(count as nat, |k: int| song_of(sorted[k])),
        notes,
    }
}

/// The charts that positions point at.
pub open spec fn picked(order: Seq<usize>, charts: Seq<TaskChartModel>) -> Seq<TaskChartModel> {
    Seq::new(order.len(), |k: int| charts[order[k] as int])
}

/// Whether `a` comes after `b` in a task.
fn after(a: &TableDataWithScore, b: &TableDataWithScore) -> (later: bool)
    ensures
        later == comes_after(a@, b@),
{
    let (a_clear, a_count): (u8, u32) = match &a.score {
        Some(s) => (s.clear, s.playcount),
        None => (0, 0),
    };
    let (b_clear, b_count): (u8, u32) = match &b.score {
        Some(s) => (s.clear, s.playcount),
        None => (0, 0),
    };
    a.table_data.level > b.table_data.level || (a.table_data.level == b.table_data.level && (
    a_clear > b_clear || (a_clear == b_clear && a_count > b_count)))
}

/// The positions of the charts that are yet to be cleared, in the order of a task.
fn task_order(charts: &Vec<TableDataWithScore>, lamp: u8) -> (order: Vec<usize>)
    ensures
        forall|k: int| 0 <= k < order.len() ==> (#[trigger] order@[k]) < charts.len(),
        picked(order@, views(charts@)) == in_order(
            views(charts@).filter(|chart: TaskChartModel| not_achieved(chart, lamp)),
        ),
{
    let ghost all = views(charts@);
    let ghost open = |chart: TaskChartModel| not_achieved(chart, lamp);
    let mut order: Vec<usize> = Vec::new();
    let mut i: usize = 0;
    proof {
        reveal(Seq::filter);
        assert(all.subrange(0, 0).filter(open) =~= Seq::<TaskChartModel>::empty());
        assert(picked(order@, all) =~= Seq::<TaskChartModel>::empty());
    }
    while i < charts.len()
        invariant
            i <= charts.len(),
            all == views(charts@),
            open == |chart: TaskChartModel| not_achieved(chart, lamp),
            forall|k: int| 0 <= k < order.len() ==> (#[trigger] order@[k]) < charts.len(),
            picked(order@, all) == in_order(all.subrange(0, i as int).filter(open)),
        decreases charts.len() - i,
    {
        let chart = &charts[i];
        proof {
            reveal(Seq::filter);
            assert(all.subrange(0, i + 1).drop_last() == all.subrange(0, i as int));
            assert(all.subrange(0, i + 1).last() == chart@);
        }
        let yet = match &chart.score {
            None => true,
            Some(s) => s.clear < lamp,
        };
        if yet {
            let ghost sorted = picked(order@, all);
            let ghost later = |other: TaskChartModel| comes_after(other, chart@);
            let ghost kept = all.subrange(0, i as int).filter(open);
            let mut p: usize = 0;
            while p < order.len() && !after(&charts[order[p]], chart)
                invariant
                    p <= order.len(),
                    all == views(charts@),
                    chart@ == all[i as int],
                    sorted == picked(order@, all),
                    later == |other: TaskChartModel| comes_after(other, chart@),
                    forall|k: int| 0 <= k < order.len() ==> (#[trigger] order@[k]) < charts.len(),
                    forall|k: int| 0 <= k < p ==> !later(#[trigger] sorted[k]),
                decreases order.len() - p,
            {
                assert(sorted[p as int] == charts@[order@[p as int] as int]@);
                p += 1;
            }
            proof {
                if p < order.len() {
                    assert(sorted[p as int] == charts@[order@[p as int] as int]@);
                    lemma_first_where_is(sorted, later, p as int);
                }
                assert(place_of(sorted, chart@) == p);
                assert(kept.push(chart@).drop_last() == kept);
                assert(picked(order@.insert(p as int, i), all) =~= sorted.insert(p as int, chart@));
            }
            order.insert(p, i);
        }
        i += 1;
    }
    assert(all.subrange(0, charts.len() as int) == all);
    order
}

/// Makes a day's task from the charts of a table, each with the player's
/// score and the number of its notes. The charts that the player has not
/// cleared with the target lamp are put in order of level, then lamp, then
/// play count, and taken from the front while the notes of those taken are
/// below `task_notes`. The folder is named after the day, the notes counted
/// (the first chart left out included) and the last three digits of the
/// stamp. A lamp without a number is an error.
pub fn create_task_folder(
    charts: &Vec<TableDataWithScore>,
    target_lamp: &str,
    task_notes: u32,
    today: &str,
    stamp: i64,
) -> (task: Result<TaskFolder, InvalidLamp>)
    ensures
        match task {
            Ok(folder) => lamp_id(target_lamp@) is Some && folder@ == task_of(
                views(charts@),
                lamp_id(target_lamp@)->0,
                task_notes,
                today@,
                stamp,
            ),
            Err(e) => lamp_id(target_lamp@) is None && e.lamp@ == target_lamp@,
        },
{
    let lamp = match lamp_to_id(target_lamp) {
        Ok(n) => n,
        Err(e) => {
            return Err(e);
        },
    };
    let order = task_order(charts, lamp);
    let ghost all = views(charts@);
    let ghost sorted = picked(order@, all);
    let mut songs: Vec<DefaultTableSong> = Vec::new();
    let mut notes: u64 = 0;
    let mut k: usize = 0;
    let mut full = false;
    while k < order.len() && !full
        invariant
            k <= order.len(),
            all == views(charts@),
            sorted == picked(order@, all),
            forall|j: int| 0 <= j < order.len() ==> (#[trigger] order@[j]) < charts.len(),
            songs.len() == (if full {
                k - 1
            } else {
                k as int
            }),
            full ==> k > 0,
            forall|j: int| 0 <= j < songs.len() ==> (#[trigger] songs@[j])@ == song_of(sorted[j]),
            !full ==> notes <= task_notes as u64 + u32::MAX as u64,
            !full ==> taken(sorted, task_notes, 0, 0) == taken(
                sorted,
                task_notes,
                k as int,
                notes as nat,
            ),
            full ==> taken(sorted, task_notes, 0, 0) == (k - 1, notes as nat),
        decreases order.len() - k + (if full { 0int } else { 1int }),
    {
        let chart = &charts[order[k]];
        assert(sorted[k as int] == chart@);
        if notes < task_notes as u64 {
            let song = DefaultTableSong::new(
                chart.table_data.title.clone(),
                chart.table_data.sha256.clone(),
            );
            songs.push(song);
        } else {
            full = true;
        }
        notes = notes + chart.totalnotes as u64;
        k += 1;
    }
    let mut name = today.to_owned();
    name.append(" ");
    push_digits(&mut name, notes);
    name.append(" NOTES ");
    push_decimal(&mut name, last_three_digits(stamp));
    let folder = TaskFolder { name, songs, notes };
    proof {
        let (count, total) = taken(sorted, task_notes, 0, 0);
        assert(views(folder.songs@) =~= Seq::new(count as nat, |j: int| song_of(sorted[j])));
    }
    Ok(folder)
}

} // verus!
