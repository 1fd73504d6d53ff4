//! File names, paths and the search for image files.

pub mod file_filter;
pub mod path;
pub mod scan_laws;
pub mod scanner;
