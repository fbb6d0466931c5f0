//! Workspace file hashing: the file table kept sorted by path, its incremental
//! updates, the choice of files to hash again against the archive of the
//! previous run, the aggregate hash of a set of files, and the reconciliation
//! of updates into per-project file maps.

pub mod aggregate;
pub mod file_table;
pub mod laws;
pub mod path_order;
pub mod reconcile;
pub mod selective;
