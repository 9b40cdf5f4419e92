//! Ranking and history engine of a directory-jump tool.
//!
//! The crate keeps a most-recently-used list of visited directories and ranks
//! its entries against a free-text query by edit-distance similarity and
//! recency. All numbers are fixed-point integers in units of `1 / SCALE`.

pub mod complete;
pub mod fixed;
pub mod history;
pub mod ranking;
pub mod recency;
pub mod shell;
pub mod similarity;
