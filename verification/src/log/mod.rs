//! The write buffer that committed log entries land in.

pub mod mem_table;
pub mod record;
