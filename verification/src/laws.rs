//! What the operations are for: laws over their results, stated on the inputs that they
//! are given.

pub mod text;
pub mod search;
pub mod unused;
pub mod metadata;
pub mod usage;
pub mod layout;
pub mod report;
pub mod scan;
pub mod clean;
pub mod cli;
pub mod deps;
pub mod json;
pub mod order;
pub mod decisions;
