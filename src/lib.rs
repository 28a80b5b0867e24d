//! A durable, deduplicated mirror of a media folder, with quota-driven
//! retention and rotation of database backups.
//!
//! The library keeps an in-memory index of each directory tree and decides
//! every change: what to copy, how to judge a finished copy, what to delete
//! to meet a quota, which backups are stale. Reading and writing the
//! filesystem is left to the caller, which performs the actions the library
//! asks for and hands back what it observed.

mod error;
mod file_index;
mod file_info;
mod filter;
mod grammar;
mod mirror;
mod order;
mod path;
mod rotation;
mod scan;

pub use error::Error;
pub use file_index::{is_media_path, ActionType, FileIndex, IndexType};
pub use file_info::{FileInfo, Timestamp};
pub use filter::{partition, Candidate, DataLimit, FilePredicate, FileQuery, FileScore};
pub use mirror::{ImportVerdict, TransferOutcome};
pub use path::RelPath;
pub use scan::{plan_setup, DirEntry, EntryKind, SetupPlan, TreeProbe, TreeScan};
