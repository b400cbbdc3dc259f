//! The project model of a shape editor: a project is a root directory and a
//! snapshot of the tree below it. The library decides what to do and builds
//! the snapshot from what the caller read on disk; the caller does the reading
//! and writing.

pub mod path;
pub mod project;
pub mod create;
