//! Finding, sizing and removing `node_modules` directories beneath a root.
//!
//! The filesystem itself stays outside: callers hand in what a directory walk
//! met and what a metadata read returned, and get back which directories
//! match, how large they are, how they are shown, and which paths to remove.

pub mod clean;
pub mod path_text;
pub mod scan;
pub mod size_format;
