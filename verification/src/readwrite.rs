//! The file formats: commit logs and snapshots.

pub mod commitlog;
pub mod header;
pub mod header_laws;
pub mod commitlog_laws;
pub mod snapshot;
pub mod snapshot_laws;
