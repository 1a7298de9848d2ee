//! Rows that are deleted.

pub mod tombstones_admin;
