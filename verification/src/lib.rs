//! Operational memory for a code repository: its project identity.
//!
//! A code repository carries one manifest naming an immutable project id;
//! the project's records live in a directory named after that id in a
//! separate memory repository. This crate holds the identity core as
//! verified logic: the manifest format and its reading back, the id and
//! timestamp formats, the decisions taken while creating or resolving an
//! identity, and the listing of a project's records. It performs no I/O:
//! `initialize` and `start` return the filesystem actions to perform, and
//! take back what the caller found.
pub mod error;
pub mod identity;
pub mod lifecycle;
pub mod manifest;
pub mod records;
pub mod text;
pub mod timestamp;
pub mod uuid;

pub use error::Error;
pub use identity::{Project, ProjectId, FORMAT_VERSION, MANIFEST_FILE_NAME};
pub use lifecycle::{initialize, start, Action, Event, PathKind, Target, WriteStage};
pub use manifest::{parse_manifest, render, Manifest};
pub use records::{DirectoryEntry, Listing};
pub use timestamp::{format_utc, is_utc_timestamp};
