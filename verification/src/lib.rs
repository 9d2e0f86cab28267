//! Disk usage accounting: which filesystem entries count, how their sizes
//! add up when hard links share an inode, and how the results are reported,
//! as a total or as a chart of the direct children of the roots.

pub mod chart;
pub mod cli;
pub mod outside;
pub mod text;
pub mod walk;

pub use crate::chart::{display_path, format_bar, separator, BAR_WIDTH};
pub use crate::cli::{run_diskus, run_ku, SizeFormat};
pub use crate::walk::{
    CountType, Directories, DiskUsage, DiskUsageEntriesResult, DiskUsageEntry, DiskUsageResult,
    Error, UncheckedDiskUsageResult,
};
