//! Accounting of the memory overhead a virtual-machine-monitor process
//! imposes on its host, computed from the process's memory-map report.
//!
//! The library parses the report line by line (region headers, `Size:` and
//! `Rss:` counters), excludes the regions that back the guest's own RAM, and
//! sums the remaining resident memory by region identifier. `report` holds
//! the end-to-end entry point; `laws` states and proves what the pass
//! guarantees for every report.

pub mod aggregate;
pub mod args;
pub mod bytes;
pub mod laws;
pub mod parse;
pub mod report;
