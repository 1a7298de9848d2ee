//! The writer: from appended rows to a new version of the table.

pub mod groups;
pub mod plan;
pub mod assemble;
pub mod retry;
pub mod shards;
pub mod batch;
pub mod buffer;
pub mod publish;
pub mod upload;
