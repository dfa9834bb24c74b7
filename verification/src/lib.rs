//! Aggregation of directory listings reported by independent watcher agents.
//!
//! Each agent periodically scans one directory and reports what it saw: a full
//! snapshot on first contact, then incremental diffs. A central store merges
//! the reports into one view, marks sources that have gone quiet as stale, and
//! drops them entirely once they have been quiet for too long.
//!
//! The crate holds the verified core: the diff engine, the per-source store
//! with its staleness and expiry rules, the watcher agent's report/resync
//! protocol, and the intake decision rules of the HTTP API. Network and
//! filesystem plumbing live outside and hand this crate plain values.

pub mod api;
pub mod diff;
pub mod state;
pub mod timings;
pub mod types;
pub mod watcher;
