//! Consolidation of a chart library: content-addressed indexing of chart
//! files, detection and resolution of duplicate chart folders, relocation of
//! the surviving folders, and the naming of folders after their charts.
//!
//! Everything here works on plain values. Reading directories and files, and
//! carrying out the planned moves, is left to the caller: a stage is handed
//! what was found on disk and answers with what is to be done.
//!
//! - [`chart_hashes`] indexes the chart files of a tree by the hash of their
//!   content and derives the chart folders.
//! - [`ops::rename`], [`ops::merge`] and [`ops::reconstruct`] are the three
//!   stages of a pass: folders are named after their charts, duplicate
//!   folders are merged, and the folders that remain are brought under one
//!   destination.
//! - [`fsutil`] plans the move of one directory into another so that no
//!   file is lost.
//! - [`ops::check_table_coverage`], [`ops::create_task_folder`],
//!   [`ops::create_oldest_played_folder`] and [`ops::install_from_dir`] hold
//!   what the other commands compute.

pub mod chart_hashes;
pub mod fsutil;
pub mod lists;
pub mod numbers;
pub mod path;
pub mod table_loader;
pub mod text;
pub mod utils;
pub mod ops;

use vstd::prelude::*;

verus! {

/// The kinds of message that the check of a table hands to a front end.
#[derive(Debug, Clone, Copy, PartialEq, Eq, Structural)]
pub enum FrontendMsg {
    /// A chart of the table that the library lacks.
    CheckNotFound,
    /// How many charts of the table the library has.
    CheckSummary,
}

impl FrontendMsg {
    /// The name of the kind, as a front end reads it.
    pub fn name(&self) -> (text: String)
        ensures
            text@ == match self {
                FrontendMsg::CheckNotFound => "CheckNotFound"@,
                FrontendMsg::CheckSummary => "CheckSummary"@,
            },
    {
        match self {
            FrontendMsg::CheckNotFound => "CheckNotFound".to_owned(),
            FrontendMsg::CheckSummary => "CheckSummary".to_owned(),
        }
    }
}

} // verus!
