//! Incremental file synchronisation: the decisions and bookkeeping of a
//! backup tool that mirrors a source directory into a target directory.
//! A file is copied only when its size or its SHA-256 fingerprint differs
//! from what was last copied; copies go through a temporary name; files
//! gone from the source can be removed from the target; exclusion rules
//! match path segments at any depth; change notifications are debounced.

mod text;
pub mod units;
pub mod paths;
pub mod exclude;
pub mod digest;
pub mod syncer;
pub mod sync_run;
pub mod store;
pub mod debounce;
pub mod session;
pub mod icon;
pub mod config;

pub use syncer::SyncEvent;
pub use units::fmt_bytes;
