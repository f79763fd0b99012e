//! A directory listing library: entry records, size / permission / date
//! rendering, name filters, the multi-directory collector and a stable sorter.

pub mod cli;
pub mod display;
pub mod file_ops;
pub mod sorting;
pub mod text;
pub mod types;
pub mod utils;
