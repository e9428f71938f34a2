//! Where the target directory of a Cargo project went: what its files belong to, what
//! could be removed, and which dependencies nothing names.
//!
//! Everything here computes on plain values. The file system, Cargo and the terminal are
//! the caller's: it hands in what they say and prints what comes back.

pub mod clean;
pub mod cli;
pub mod deps;
pub mod graph;
pub mod json;
pub mod laws;
pub mod layout;
pub mod metadata;
pub mod order;
pub mod path;
pub mod report;
pub mod scan;
pub mod search;
pub mod spacing;
pub mod tally;
pub mod text;
pub mod time;
pub mod unused;
pub mod usage;
