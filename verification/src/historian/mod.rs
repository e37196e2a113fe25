//! The audit trail: what is recorded, and into which file each line goes.

pub mod schema;
pub mod writer;
