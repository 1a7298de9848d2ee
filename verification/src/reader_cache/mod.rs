//! Superfiles that are kept near.

pub mod table;
pub mod disk;
pub mod fetch;
pub mod policy;
pub mod reserve;
pub mod in_memory;
