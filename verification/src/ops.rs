//! The stages of a consolidation pass.

pub mod check_table_coverage;
pub mod create_oldest_played_folder;
pub mod create_task_folder;
pub mod install_from_dir;
pub mod merge;
pub mod reconstruct;
pub mod rename;
