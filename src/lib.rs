//! Aggregates the text files of a directory tree into one text, leaving out the
//! directories that the tree's ignore files name.
pub mod aggregate;
pub mod ignore;
pub mod text;
pub mod tree;
pub mod laws;
