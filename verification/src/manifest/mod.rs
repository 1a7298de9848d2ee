//! The manifest: which superfiles there are, and what is known of them.

pub mod aggregates;
pub mod avro;
pub mod bloom;
pub mod commit;
pub mod encoding;
pub mod entry;
pub mod ipc;
pub mod list;
pub mod list_dto;
pub mod list_prune;
pub mod options_hash;
pub mod part;
pub mod partition;
pub mod snapshot;
pub mod spheres;

pub use crate::scalar::ScalarStatsTable;
pub use entry::{FtsSummary, SuperfileEntry, SuperfileUri, VectorSummary};
pub use snapshot::{Manifest, ManifestLoadError, ManifestPartLoader, SuperfileList};
