//! Whole-file snapshots of managed files, kept in journals under a private root
//! directory.
pub mod journaling;
pub mod utils;
