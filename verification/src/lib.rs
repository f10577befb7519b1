//! A minimal content-addressed version store: blobs named by their SHA-1
//! digest, a staging index, and commits chained by parent hash.
//!
//! Everything here computes on plain values. Reading and writing the
//! repository's files is left to the caller, who is handed the exact bytes
//! and paths to write.
//!
//! - `digest`: content hashes.
//! - `text`: characters, order and lines of text.
//! - `entries`: hash/path pairs in ascending order.
//! - `blob`, `object`: what the object store holds.
//! - `index`: the staging index and its file.
//! - `commit`: commits and their text.
//! - `file_service`: the paths of a repository, and reading and writing its
//!   files as bytes.
//! - `actions`: staging files and committing what is staged.
//! - `error`, `write`: failures, and files to be written.

pub mod digest;
pub mod error;
pub mod text;
pub mod write;
pub mod entries;
pub mod index;
pub mod commit;
pub mod blob;
pub mod object;
pub mod file_service;
pub mod actions;
