//! Snapshots of a directory tree in which every file is stood for by the
//! digest of its bytes and every directory by the nesting of its entries.
//!
//! A walk over a directory meets files and directories in no particular
//! order. Each is inserted into one [`Contents`] under its relative path, a
//! file with its [`FileHash`]; the snapshot that results is written as a
//! [`Document`], and read back from one.

pub mod contents;
pub mod document;
pub mod file_hash;
pub mod hex_codec;
pub mod laws;
pub mod model;

pub use contents::{Contents, FsItem};
pub use document::{Document, DocumentError, Field};
pub use file_hash::FileHash;
pub use hex_codec::DecodeError;
