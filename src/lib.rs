//! An encrypted single-file container for a directory tree: chunked
//! authenticated encryption of file bodies, an encrypted table of contents,
//! and a fixed eight-byte trailer that points at it.
pub mod constants;
pub mod error;
pub mod ioutils;
pub mod secure;
pub mod node;
pub mod table;
pub mod archive;
pub mod writer;
