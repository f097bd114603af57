//! A directory tree packed into one self-describing byte archive, and the
//! read-only filesystem view that answers requests against such an archive.
//!
//! - [`model`]: directories, files, attribute records and the archive that
//!   holds them, with the invariants of that data model.
//! - [`bytes`], [`text`], [`layout`]: the archive's byte layout, from
//!   big-endian fields up to a whole archive.
//! - [`common`]: finding records by node id, and writing and reading them.
//! - [`round_trip`]: what was written is read back.
//! - [`serve`]: the requests `lookup`, `getattr`, `read` and `readdir`.
//! - [`generate`]: packing a snapshot of a directory tree and harvesting its
//!   attribute records.
//! - [`numbering`], [`integrity`], [`flat`]: what holds of every packed
//!   tree.

pub mod bytes;
pub mod common;
pub mod flat;
pub mod generate;
pub mod integrity;
pub mod layout;
pub mod model;
pub mod numbering;
pub mod round_trip;
pub mod serve;
pub mod text;
