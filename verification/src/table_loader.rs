//! A difficulty table: the records of its charts, as its `score.json` lists
//! them.

use crate::path::views;
use crate::text::{ends_with, replace_all, replaced, stands_at};
use vstd::prelude::*;

verus! {

/// What a [`ScoreData`] stands for.
pub struct ScoreModel {
    pub title: Seq<char>,
    pub url: Seq<char>,
    pub url_diff: Seq<char>,
    pub sha256: Seq<char>,
    pub level: Seq<char>,
}

/// One chart of a table: its title, where to get it, where to get the diff
/// that makes it (empty where there is none), the content hash of the chart
/// file, and its level.
#[derive(Debug, Clone)]
pub struct ScoreData {
    pub title: String,
    pub url: String,
    pub url_diff: String,
    pub sha256: String,
    pub level: String,
}

impl View for ScoreData {
    type V = ScoreModel;

    open spec fn view(&self) -> ScoreModel {
        ScoreModel {
            title: self.title@,
            url: self.url@,
            url_diff: self.url_diff@,
            sha256: self.sha256@,
            level: self.level@,
        }
    }
}

/// The page of a table, by the end of its address.
pub const TABLE_PAGE: &'static str = "table.html";

/// The list of a table's charts, by the end of its address.
pub const SCORE_LIST: &'static str = "score.json";

/// The address of a table's chart list: an address that ends in
/// [`TABLE_PAGE`] has every [`TABLE_PAGE`] in it replaced by [`SCORE_LIST`];
/// any other address is that of the list already.
pub open spec fn score_address(url: Seq<char>) -> Seq<char> {
    if TABLE_PAGE@.len() <= url.len() && stands_at(url, TABLE_PAGE@, url.len() - TABLE_PAGE@.len()) {
        replaced(url, TABLE_PAGE@, SCORE_LIST@)
    } else {
        url
    }
}

/// The address from which the chart list of the table at `url` is fetched.
pub fn score_url(url: &str) -> (address: String)
    ensures
        address@ == score_address(url@),
{
    if ends_with(url, TABLE_PAGE) {
        replace_all(url, TABLE_PAGE, SCORE_LIST)
    } else {
        url.to_owned()
    }
}

/// A loaded table.
#[derive(Debug)]
pub struct TableLoader {
    charts: Vec<ScoreData>,
}

impl View for TableLoader {
    type V = Seq<ScoreModel>;

    closed spec fn view(&self) -> Seq<ScoreModel> {
        views(self.charts@)
    }
}

impl TableLoader {
    /// The table with the records that were fetched from its chart list.
    pub fn new(charts: Vec<ScoreData>) -> (table: Self)
        ensures
            table@ == views(charts@),
    {
        TableLoader { charts }
    }

    /// The records of the table, in the order of its list.
    pub fn charts(&self) -> (charts: &Vec<ScoreData>)
        ensures
            views(charts@) == self@,
    {
        &self.charts
    }
}

} // verus!
