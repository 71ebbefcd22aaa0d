//! Filesystem inspection engine for an interactive disk-usage browser.
//!
//! The engine answers two questions: what is immediately inside a directory
//! (a fast, non-recursive listing) and how much space a subtree occupies
//! (a recursive aggregation), and it reports mounted-volume capacity.
//! All filesystem reads happen outside this crate; the callers hand the
//! observed raw children in as plain values, and every decision made on
//! them — classification, ordering, skipping, accumulation — is verified.

pub mod aggregate;
pub mod listing;
pub mod volumes;

pub use aggregate::{ChildKind, ChildRecord, FolderSize, SizeScan};
pub use listing::{build_listing, FsEntry, RawChild, RawKind};
pub use volumes::{collect_drives, make_drive_info, DriveInfo, RawVolume};
