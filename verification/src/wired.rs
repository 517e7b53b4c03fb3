//! Operators that are wired to channels.

pub mod outbox;
pub mod logic;
pub mod passage;
pub mod promises;
pub mod relay;
pub mod stash;
pub mod gathered;
pub mod gathering;
pub mod awaiting;
pub mod choosing;
pub mod composing;
pub mod distinct;
pub mod streams;
pub mod ends;
pub mod joins;
pub mod merging;
pub mod rounds;
pub mod sending;
pub mod splitting;
pub mod summing;
pub mod tasks;
pub mod tickets;
pub mod operator;
