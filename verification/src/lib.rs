//! Line counts of a source tree, one directory at a time.
//!
//! The crate holds the rules of a code-volume browser: which files count,
//! how many lines a text has, how the children of a directory are totalled
//! and ordered, and how a cursor moves through the tree without leaving the
//! directory it started from. Reading the disk and drawing the screen are
//! left to the caller, who hands over what was read.

pub mod app;
pub mod directory;
pub mod filter;
pub mod lines;
pub mod path;
pub mod ui;
