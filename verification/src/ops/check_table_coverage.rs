//! Checking how much of a difficulty table a chart library holds.

use crate::chart_hashes::{has_hash, ChartHashes, GroupModel, HashGroup};
use crate::numbers::{parse_number, parsed};
use crate::path::{lemma_views_push, views};
use crate::table_loader::{ScoreModel, TableLoader};
use vstd::prelude::*;

verus! {

/// What a [`NotFoundInfo`] stands for.
pub struct NotFoundModel {
    pub level: Seq<char>,
    pub title: Seq<char>,
    pub url: Seq<char>,
    pub diff_url: Option<Seq<char>>,
}

/// A chart of the table that the library lacks: its level and title, and
/// where to get it, with the diff that makes it where the table names one.
#[derive(Debug, Clone)]
pub struct NotFoundInfo {
    pub level: String,
    pub title: String,
    pub url: String,
    pub diff_url: Option<String>,
}

impl View for NotFoundInfo {
    type V = NotFoundModel;

    open spec fn view(&self) -> NotFoundModel {
        NotFoundModel {
            level: self.level@,
            title: self.title@,
            url: self.url@,
            diff_url: match self.diff_url {
                Some(u) => Some(u@),
                None => None,
            },
        }
    }
}

/// How many of the charts that were checked the library holds.
#[derive(Debug, Clone, Copy, PartialEq, Eq, Structural)]
pub struct CheckSummary {
    pub found: usize,
    pub total: usize,
}

/// What a [`CoverageReport`] stands for.
pub struct ReportModel {
    pub not_found: Seq<NotFoundModel>,
    pub found: nat,
    pub total: nat,
}

/// The outcome of a check: the charts that are lacking, in the order of the
/// table, and the count.
#[derive(Debug)]
pub struct CoverageReport {
    pub not_found: Vec<NotFoundInfo>,
    pub summary: CheckSummary,
}

impl View for CoverageReport {
    type V = ReportModel;

    open spec fn view(&self) -> ReportModel {
        ReportModel {
            not_found: views(self.not_found@),
            found: self.summary.found as nat,
            total: self.summary.total as nat,
        }
    }
}

/// Whether a chart of this level is checked under this limit: without a
/// limit every chart is, and so is a chart whose level is no number up to 255.
pub open spec fn within_limit(level: Seq<char>, limit: Option<u8>) -> bool {
    match limit {
        None => true,
        Some(most) => match parsed(level, 255) {
            Some(n) => n <= most,
            None => true,
        },
    }
}

/// What is reported of a chart that is lacking.
pub open spec fn not_found_info(chart: ScoreModel) -> NotFoundModel {
    NotFoundModel {
        level: chart.level,
        title: chart.title,
        url: chart.url,
        diff_url: if chart.url_diff.len() == 0 {
            None
        } else {
            Some(chart.url_diff)
        },
    }
}

/// The outcome of checking a table against the groups of an index.
pub open spec fn coverage(table: Seq<ScoreModel>, groups: Seq<GroupModel>, limit: Option<u8>)
    -> ReportModel
    decreases table.len(),
{
    if table.len() == 0 {
        ReportModel { not_found: Seq::empty(), found: 0, total: 0 }
    } else {
        let before = coverage(table.drop_last(), groups, limit);
        let chart = table.last();
        if !within_limit(chart.level, limit) {
            before
        } else if has_hash(groups, chart.sha256) {
            ReportModel {
                not_found: before.not_found,
                found: before.found + 1,
                total: before.total + 1,
            }
        } else {
            ReportModel {
                not_found: before.not_found.push(not_found_info(chart)),
                found: before.found,
                total: before.total + 1,
            }
        }
    }
}

/// Whether a chart of this level is checked under this limit.
fn level_within(level: &str, limit: &Option<u8>) -> (within: bool)
    ensures
        within == within_limit(level@, *limit),
{
    match limit {
        None => true,
        Some(most) => match parse_number(level, 255) {
            Some(n) => n <= *most as u32,
            None => true,
        },
    }
}

/// Whether some group is filed under `hash`.
fn holds_hash(groups: &Vec<HashGroup>, hash: &String) -> (held: bool)
    ensures
        held == has_hash(views(groups@), hash@),
{
    let mut i: usize = 0;
    let ghost wanted = |group: GroupModel| group.hash == hash@;
    while i < groups.len()
        invariant
            i <= groups.len(),
            wanted == |group: GroupModel| group.hash == hash@,
            forall|j: int| 0 <= j < i ==> !wanted(#[trigger] views(groups@)[j]),
        decreases groups.len() - i,
    {
        if groups[i].hash == *hash {
            assert(wanted(views(groups@)[i as int]));
            return true;
        }
        i += 1;
    }
    false
}

/// Checks a table against an index: of the charts of the table whose level
/// is within the limit, counts those whose content hash the index holds, and
/// lists the others.
pub fn check_table_coverage(
    table: &TableLoader,
    chart_hashes: &ChartHashes,
    level_limit: &Option<u8>,
) -> (report: CoverageReport)
    ensures
        report@ == coverage(table@, chart_hashes@, *level_limit),
{
    let charts = table.charts();
    let groups = chart_hashes.hashes();
    let ghost all = views(charts@);
    let mut not_found: Vec<NotFoundInfo> = Vec::new();
    let mut found: usize = 0;
    let mut total: usize = 0;
    let mut i: usize = 0;
    assert(views(not_found@) =~= Seq::<NotFoundModel>::empty());
    while i < charts.len()
        invariant
            i <= charts.len(),
            all == views(charts@),
            all == table@,
            views(groups@) == chart_hashes@,
            found <= total <= i,
            (ReportModel { not_found: views(not_found@), found: found as nat, total: total as nat })
                == coverage(all.subrange(0, i as int), chart_hashes@, *level_limit),
        decreases charts.len() - i,
    {
        let chart = &charts[i];
        proof {
            assert(all.subrange(0, i + 1).drop_last() == all.subrange(0, i as int));
            assert(all.subrange(0, i + 1).last() == chart@);
        }
        if level_within(chart.level.as_str(), level_limit) {
            total += 1;
            if holds_hash(groups, &chart.sha256) {
                found += 1;
            } else {
                let info = NotFoundInfo {
                    level: chart.level.clone(),
                    title: chart.title.clone(),
                    url: chart.url.clone(),
                    diff_url: if chart.url_diff.as_str().unicode_len() == 0 {
                        None
                    } else {
                        Some(chart.url_diff.clone())
                    },
                };
                proof {
                    lemma_views_push(not_found@, info);
                }
                not_found.push(info);
            }
        }
        i += 1;
    }
    assert(all.subrange(0, charts.len() as int) == all);
    CoverageReport { not_found, summary: CheckSummary { found, total } }
}

} // verus!
