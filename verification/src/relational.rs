//! The relational form of a queue: what is said to a store of tables, and what is made of its replies.

pub mod batch;
pub mod claim;
pub mod codec;
pub mod cohorts;
pub mod columns;
pub mod command;
pub mod commit;
pub mod exec;
pub mod finalize;
pub mod indexes;
pub mod insert;
pub mod lease_commands;
pub mod leases;
pub mod lists;
pub mod memory;
pub mod mutate;
pub mod push;
pub mod query;
pub mod removal;
pub mod requests;
pub mod scan;
pub mod script;
pub mod settled;
pub mod stored;
pub mod summary;
pub mod told;
pub mod tokens;
pub mod update;
pub mod value;
