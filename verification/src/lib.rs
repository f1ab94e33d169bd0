//! Splits a numbered inventory of units between named requests.
//!
//! The inventory is written as named groups of closed integer ranges
//! (`A=1-50, B=51-100`); requests name per-group demands (`X: 32,32`).
//! Parsing validates the inventory against overlapping unit numbers,
//! duplicate group names and decreasing ranges, and the allocator draws
//! contiguous sub-ranges from each group greedily, lowest numbers first,
//! reporting the leftover inventory.

pub mod group;
pub mod interval_tree;
pub mod inventory;
pub mod laws;
pub mod parse;
pub mod range;
pub mod request;
pub mod requests;
pub mod split;
