//! Queries over superfiles.

pub mod skip;
pub mod vector;
pub mod sql;
