//! A file-tagging archive. Files are known by the hash of their content; an
//! entry holds, for one hash, the names under which that content was added
//! and the tags given to it. An archive holds the entries of one tracked
//! directory and is kept in a storage file, one entry on each line.
//!
//! Reading and writing files is left to the caller, and so is the form of an
//! entry on its line: the library takes and gives bytes and entries.

pub mod archive;
pub mod digest;
pub mod entry;
pub mod lines;
pub mod order;
pub mod sorted;
pub mod storage;
pub mod views;
