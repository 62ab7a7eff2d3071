//! The record layouts, by format version.

pub mod blocks;
pub mod v0;
