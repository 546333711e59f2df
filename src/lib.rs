//! Capture of line-level edit history for source files: a pure line diff that
//! groups changes into positioned hunks, the change tracker that decides when a
//! diff is recorded, and the append-only store of recorded hunks.

pub mod diff;
pub mod report;
pub mod store;
pub mod text;
pub mod time;
pub mod tools;
pub mod watcher;
