//! Rule-driven renaming of fields in nested records, with the guard that
//! protects the write-back of each changed record.

pub mod record;
pub mod rule;
pub mod rewrite;
pub mod laws;
pub mod plan;
pub mod condition;
pub mod writer;
pub mod scan;
pub mod confirm;
