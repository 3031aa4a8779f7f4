//! A verified operating-system simulator: CPU scheduling, page replacement, paged memory,
//! file allocation on a block map, and I/O devices with deadlock detection and the
//! banker's safety check.

pub mod bankers;
pub mod cycle;
pub mod deadlock;
pub mod disk;
pub mod memory;
pub mod order;
pub mod page_replace;
pub mod process;
pub mod report;
pub mod scheduler;
pub mod sums;
pub mod text;
pub mod totals;
