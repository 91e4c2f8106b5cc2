//! Finds the source files of a directory tree that use a given package.
//!
//! A walk over the tree picks the candidate files: it leaves out the
//! directories with an ignored name and keeps the files with the extension of
//! a source file. A scan of each candidate's text decides whether the file
//! imports or requires the package. Reading directories and files is left to
//! the caller; everything here works on names and text.

pub mod error;
pub mod text;
pub mod matcher;
pub mod names;
pub mod tree;
pub mod walker;
pub mod agreement;
pub mod find;
pub mod usage;
