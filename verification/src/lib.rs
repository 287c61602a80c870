//! Searching a directory tree for files or directories by name.
//!
//! A pattern is read once into a [`rule::MatchRule`]: an exact name, an exact
//! name with its extension, or one of the two with `*` as a wildcard. A search
//! walks the tree depth first in the order of the listings, down to a given
//! depth, and gives the paths of the entries that the rule matches.
//!
//! [`tree::found_in`] says what a search finds. [`tree::walk`] searches a tree
//! held in memory; [`walker::Walker`] searches a file system that its caller
//! reads for it, one directory at a time. [`report::report`] writes the lines
//! that show a result.

pub mod engine;
pub mod glob;
pub mod name;
pub mod path;
pub mod report;
pub mod rule;
pub mod text;
pub mod tree;
pub mod walker;
