//! Renames the media files of one directory to a numbered episode pattern
//! (`<dir>E<number>.<extension>`), taking the number from the digit runs
//! found in each file's full path.

pub mod config;
pub mod listing;
pub mod naming;
pub mod numbers;
pub mod order;
pub mod plan;
